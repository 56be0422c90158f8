//! Class diagrams: class blocks with members, bare declarations and
//! relationship lines.

use vstd::prelude::*;
use crate::diagram::{
    ClassMember, Diagram, DiagramType, DiagramV, MemberType, MemberV, Node, NodeV, Relationship,
    RelationshipV, Visibility, empty_diagram_v, has_node, ids_distinct, node_v,
};
use crate::parser::flowchart::{index_of_id, keeps_ids, lemma_index_of_id_bound, lemma_keeps_has, nodes_v};
use crate::text::{
    chars_of, concat, contains, contains_of, count_char, count_char_of, find, find_char,
    find_char_of, find_of, lines, lines_of, slice_of, starts_with, starts_with_of, string_is,
    string_of, trim, trim_of, trim_start_set, trim_start_set_of, words, words_of,
};

verus! {

// ---------------------------------------------------------------- members

/// The index in `rest` of the brace that closes an already open one, scanning
/// from `k` with `depth` braces open.
pub open spec fn close_index(rest: Seq<char>, k: int, depth: int) -> Option<int>
    decreases rest.len() - k,
{
    if k < 0 || k >= rest.len() {
        None
    } else {
        let d1 = if rest[k] == '{' { depth + 1 } else { depth };
        let d2 = if rest[k] == '}' { d1 - 1 } else { d1 };
        if d2 == 0 {
            Some(k)
        } else {
            close_index(rest, k + 1, d2)
        }
    }
}

/// The visibility a member line's first character gives.
pub open spec fn visibility_of(line: Seq<char>) -> Visibility {
    if starts_with(line, "+"@) {
        Visibility::Public
    } else if starts_with(line, "-"@) {
        Visibility::Private
    } else if starts_with(line, "#"@) {
        Visibility::Protected
    } else if starts_with(line, "~"@) {
        Visibility::Package
    } else {
        Visibility::Public
    }
}

/// The visibility markers.
pub open spec fn markers() -> Seq<char> {
    seq!['+', '-', '#', '~']
}

/// `s` up to its first `c` (all of `s` when there is none).
pub open spec fn before_char(s: Seq<char>, c: char) -> Seq<char> {
    match find_char(s, c) {
        Some(i) => s.take(i),
        None => s,
    }
}

/// One line of a class body.
pub open spec fn member_line(members: Seq<MemberV>, raw: Seq<char>) -> Seq<MemberV> {
    let line = trim(raw);
    if line.len() == 0 {
        members
    } else {
        let visibility = visibility_of(line);
        let l = trim_start_set(line, markers());
        let member_type = if contains(l, "("@) && contains(l, ")"@) {
            MemberType::Method
        } else {
            MemberType::Field
        };
        let name = if member_type == MemberType::Method {
            trim(before_char(l, '('))
        } else if contains(l, ":"@) {
            trim(before_char(l, ':'))
        } else {
            trim(l)
        };
        if name.len() > 0 {
            members.push(MemberV { name, member_type, visibility })
        } else {
            members
        }
    }
}

/// The members declared between the first `{` of a class definition and
/// the brace that closes it.
pub open spec fn class_members(def: Seq<char>) -> Seq<MemberV> {
    match find_char(def, '{') {
        Some(start) => {
            let rest = def.skip(start + 1);
            match close_index(rest, 0, 1) {
                Some(end) => lines(rest.take(end)).fold_left(
                    Seq::<MemberV>::empty(),
                    |m: Seq<MemberV>, l: Seq<char>| member_line(m, l),
                ),
                None => Seq::empty(),
            }
        },
        None => Seq::empty(),
    }
}

pub open spec fn members_v(v: Seq<ClassMember>) -> Seq<MemberV> {
    v.map_values(|m: ClassMember| m@)
}

fn before_char_of(s: &[char], c: char) -> (r: Vec<char>)
    ensures
        r@ == before_char(s@, c),
{
    match find_char_of(s, c) {
        Some(i) => {
            let r = slice_of(s, 0, i);
            assert(r@ =~= s@.take(i as int));
            r
        },
        None => crate::text::copy_of(s),
    }
}

fn member_line_exec(members: &mut Vec<ClassMember>, raw: &[char])
    ensures
        members_v(final(members)@) == member_line(members_v(old(members)@), raw@),
{
    let line = trim_of(raw);
    if line.len() == 0 {
        return;
    }
    let plus = chars_of("+");
    let minus = chars_of("-");
    let hash = chars_of("#");
    let tilde = chars_of("~");
    let visibility = if starts_with_of(line.as_slice(), plus.as_slice()) {
        Visibility::Public
    } else if starts_with_of(line.as_slice(), minus.as_slice()) {
        Visibility::Private
    } else if starts_with_of(line.as_slice(), hash.as_slice()) {
        Visibility::Protected
    } else if starts_with_of(line.as_slice(), tilde.as_slice()) {
        Visibility::Package
    } else {
        Visibility::Public
    };
    let set = vec!['+', '-', '#', '~'];
    assert(set@ =~= markers());
    let l = trim_start_set_of(line.as_slice(), set.as_slice());
    let open = chars_of("(");
    let close = chars_of(")");
    let colon = chars_of(":");
    let member_type = if contains_of(l.as_slice(), open.as_slice()) && contains_of(l.as_slice(), close.as_slice()) {
        MemberType::Method
    } else {
        MemberType::Field
    };
    let name = if member_type == MemberType::Method {
        let b = before_char_of(l.as_slice(), '(');
        trim_of(b.as_slice())
    } else if contains_of(l.as_slice(), colon.as_slice()) {
        let b = before_char_of(l.as_slice(), ':');
        trim_of(b.as_slice())
    } else {
        trim_of(l.as_slice())
    };
    if name.len() > 0 {
        let ghost before = members_v(members@);
        let m = ClassMember { name: string_of(name.as_slice()), member_type, visibility };
        members.push(m);
        assert(members_v(members@) =~= before.push(m@));
    }
}

fn close_index_of(rest: &[char]) -> (r: Option<usize>)
    ensures
        r matches Some(e) ==> close_index(rest@, 0, 1) == Some(e as int) && e < rest@.len(),
        r is None ==> close_index(rest@, 0, 1) is None,
{
    let mut depth: u128 = 1;
    let mut k: usize = 0;
    while k < rest.len()
        invariant
            k <= rest@.len(),
            rest@.len() == rest.len(),
            1 <= depth <= k + 1,
            close_index(rest@, 0, 1) == close_index(rest@, k as int, depth as int),
        decreases rest@.len() - k,
    {
        let c = rest[k];
        let d1 = if c == '{' { depth + 1 } else { depth };
        let d2 = if c == '}' { d1 - 1 } else { d1 };
        if d2 == 0 {
            return Some(k);
        }
        depth = d2;
        k = k + 1;
    }
    None
}

/// The members of a class definition (`class Name { ... }`).
pub fn class_members_of(def: &[char]) -> (r: Vec<ClassMember>)
    ensures
        members_v(r@) == class_members(def@),
{
    let mut members: Vec<ClassMember> = Vec::new();
    assert(members_v(members@) =~= Seq::<MemberV>::empty());
    let start = match find_char_of(def, '{') {
        Some(s) => s,
        None => return members,
    };
    let n = def.len();
    let rest = slice_of(def, start + 1, n);
    assert(rest@ =~= def@.skip(start + 1));
    let end = match close_index_of(rest.as_slice()) {
        Some(e) => e,
        None => return members,
    };
    let body = slice_of(rest.as_slice(), 0, end);
    assert(body@ =~= rest@.take(end as int));
    let ls = lines_of(body.as_slice());
    let ghost lv = lines(body@);
    let mut i: usize = 0;
    while i < ls.len()
        invariant
            ls@.len() == lv.len(),
            forall|j: int| 0 <= j < ls@.len() ==> #[trigger] ls@[j]@ == lv[j],
            i <= ls@.len(),
            members_v(members@) == lv.take(i as int).fold_left(
                Seq::<MemberV>::empty(),
                |m: Seq<MemberV>, l: Seq<char>| member_line(m, l),
            ),
        decreases ls@.len() - i,
    {
        member_line_exec(&mut members, ls[i].as_slice());
        assert(lv.take(i + 1).drop_last() =~= lv.take(i as int));
        i = i + 1;
    }
    assert(lv.take(lv.len() as int) =~= lv);
    members
}

// ---------------------------------------------------------------- relationships

/// Class relationship tokens, longest and most specific first.
pub open spec fn rel_tokens() -> Seq<Seq<char>> {
    seq!["..|>"@, "..>"@, "<|--"@, "--|>"@, "*--"@, "o--"@, "-->"@, "--"@]
}

fn rel_token(i: usize) -> (r: Vec<char>)
    requires
        i < 8,
    ensures
        r@ == rel_tokens()[i as int],
{
    if i == 0 {
        chars_of("..|>")
    } else if i == 1 {
        chars_of("..>")
    } else if i == 2 {
        chars_of("<|--")
    } else if i == 3 {
        chars_of("--|>")
    } else if i == 4 {
        chars_of("*--")
    } else if i == 5 {
        chars_of("o--")
    } else if i == 6 {
        chars_of("-->")
    } else {
        chars_of("--")
    }
}

/// The first relationship token, from index `i` of the table on, that `line` contains.
pub open spec fn first_rel_token(line: Seq<char>, i: int) -> Option<Seq<char>>
    decreases rel_tokens().len() - i,
{
    if i < 0 || i >= rel_tokens().len() {
        None
    } else if contains(line, rel_tokens()[i]) {
        Some(rel_tokens()[i])
    } else {
        first_rel_token(line, i + 1)
    }
}

fn first_rel_token_of(line: &[char]) -> (r: Option<Vec<char>>)
    ensures
        match r {
            Some(t) => first_rel_token(line@, 0) == Some(t@),
            None => first_rel_token(line@, 0) is None,
        },
{
    let mut i: usize = 0;
    while i < 8
        invariant
            i <= 8,
            first_rel_token(line@, 0) == first_rel_token(line@, i as int),
        decreases 8 - i,
    {
        let t = rel_token(i);
        if contains_of(line, t.as_slice()) {
            return Some(t);
        }
        i = i + 1;
    }
    None
}

/// A word that is not a quoted cardinality label such as `"1"`.
pub open spec fn unquoted(w: Seq<char>) -> bool {
    !starts_with(w, "\""@)
}

/// The last word of `ws` that is not quoted, or nothing.
pub open spec fn last_unquoted(ws: Seq<Seq<char>>) -> Seq<char>
    decreases ws.len(),
{
    if ws.len() == 0 {
        Seq::empty()
    } else if unquoted(ws.last()) {
        ws.last()
    } else {
        last_unquoted(ws.drop_last())
    }
}

/// The first word of `ws` from index `i` on that is not quoted, or nothing.
pub open spec fn first_unquoted(ws: Seq<Seq<char>>, i: int) -> Seq<char>
    decreases ws.len() - i,
{
    if i < 0 || i >= ws.len() {
        Seq::empty()
    } else if unquoted(ws[i]) {
        ws[i]
    } else {
        first_unquoted(ws, i + 1)
    }
}

fn is_unquoted(w: &[char]) -> (r: bool)
    ensures
        r == unquoted(w@),
{
    let q = chars_of("\"");
    !starts_with_of(w, q.as_slice())
}

fn last_unquoted_of(ws: &Vec<Vec<char>>) -> (r: Vec<char>)
    ensures
        r@ == last_unquoted(ws@.map_values(|w: Vec<char>| w@)),
{
    let ghost wv = ws@.map_values(|w: Vec<char>| w@);
    let mut k: usize = ws.len();
    assert(wv.take(k as int) =~= wv);
    while k > 0
        invariant
            k <= ws@.len(),
            wv == ws@.map_values(|w: Vec<char>| w@),
            last_unquoted(wv) == last_unquoted(wv.take(k as int)),
        decreases k,
    {
        assert(wv.take(k as int).drop_last() =~= wv.take(k - 1));
        assert(wv.take(k as int).last() == ws@[k - 1]@);
        if is_unquoted(ws[k - 1].as_slice()) {
            return crate::text::copy_of(ws[k - 1].as_slice());
        }
        k = k - 1;
    }
    Vec::new()
}

fn first_unquoted_of(ws: &Vec<Vec<char>>) -> (r: Vec<char>)
    ensures
        r@ == first_unquoted(ws@.map_values(|w: Vec<char>| w@), 0),
{
    let ghost wv = ws@.map_values(|w: Vec<char>| w@);
    let mut k: usize = 0;
    while k < ws.len()
        invariant
            k <= ws@.len(),
            wv == ws@.map_values(|w: Vec<char>| w@),
            first_unquoted(wv, 0) == first_unquoted(wv, k as int),
        decreases ws@.len() - k,
    {
        assert(wv[k as int] == ws@[k as int]@);
        if is_unquoted(ws[k].as_slice()) {
            return crate::text::copy_of(ws[k].as_slice());
        }
        k = k + 1;
    }
    Vec::new()
}

/// The endpoints and token of a relationship line, when it is one.
pub open spec fn class_relationship(line: Seq<char>) -> Option<RelationshipV> {
    match first_rel_token(line, 0) {
        Some(token) => match find(line, token) {
            Some(pos) => {
                let from = last_unquoted(words(line.take(pos)));
                let to = first_unquoted(words(before_char(line.skip(pos + token.len()), ':')), 0);
                if from.len() > 0 && to.len() > 0 {
                    Some(RelationshipV { from, to, rel_type: token })
                } else {
                    None
                }
            },
            None => None,
        },
        None => None,
    }
}

fn class_relationship_of(line: &[char]) -> (r: Option<(Vec<char>, Vec<char>, Vec<char>)>)
    ensures
        match r {
            Some((f, t, k)) => class_relationship(line@) == Some(RelationshipV { from: f@, to: t@, rel_type: k@ }),
            None => class_relationship(line@) is None,
        },
{
    let token = match first_rel_token_of(line) {
        Some(t) => t,
        None => return None,
    };
    let pos = match find_of(line, token.as_slice()) {
        Some(p) => p,
        None => return None,
    };
    let n = line.len();
    let head = slice_of(line, 0, pos);
    assert(head@ =~= line@.take(pos as int));
    let tail = slice_of(line, pos + token.len(), n);
    assert(tail@ =~= line@.skip(pos + token@.len()));
    let hw = words_of(head.as_slice());
    assert(hw@.map_values(|w: Vec<char>| w@) =~= words(head@));
    let from = last_unquoted_of(&hw);
    let tb = before_char_of(tail.as_slice(), ':');
    let tw = words_of(tb.as_slice());
    assert(tw@.map_values(|w: Vec<char>| w@) =~= words(tb@));
    let to = first_unquoted_of(&tw);
    if from.len() > 0 && to.len() > 0 {
        Some((from, to, token))
    } else {
        None
    }
}

// ---------------------------------------------------------------- the diagram

pub struct ClassState {
    pub nodes: Seq<NodeV>,
    pub rels: Seq<RelationshipV>,
}

/// Adds a bare class unless one of that name exists.
pub open spec fn ensure_class(nodes: Seq<NodeV>, name: Seq<char>) -> Seq<NodeV> {
    if index_of_id(nodes, name, 0) is Some {
        nodes
    } else {
        nodes.push(node_v(name, name))
    }
}

/// The definition of a class body spanning lines, from line `i` on: lines are
/// appended while more braces are open than closed.
pub open spec fn gather(ls: Seq<Seq<char>>, i: int, def: Seq<char>) -> (int, Seq<char>)
    decreases ls.len() - i,
{
    if count_char(def, '{') > count_char(def, '}') && 0 <= i && i + 1 < ls.len() {
        gather(ls, i + 1, def + seq!['\n'] + trim(ls[i + 1]))
    } else {
        (i, def)
    }
}

/// One step over line `i`: the index of the next line and the new state.
pub open spec fn class_step(ls: Seq<Seq<char>>, i: int, st: ClassState) -> (int, ClassState) {
    let line = trim(ls[i]);
    if starts_with(line, "%%"@) || line.len() == 0 || starts_with(line, "classDiagram"@) {
        (i + 1, st)
    } else if starts_with(line, "class"@) && contains(line, "{"@) {
        let w = words(line);
        let name = if w.len() > 1 { trim(w[1]) } else { Seq::empty() };
        if name.len() > 0 {
            let (j, def) = gather(ls, i, line);
            let nodes = ensure_class(st.nodes, name);
            let idx = index_of_id(nodes, name, 0)->0;
            (j + 1, ClassState { nodes: nodes.update(idx, NodeV { members: class_members(def), ..nodes[idx] }), ..st })
        } else {
            (i + 1, st)
        }
    } else if starts_with(line, "class"@) {
        let w = words(line);
        if w.len() > 1 {
            (i + 1, ClassState { nodes: ensure_class(st.nodes, w[1]), ..st })
        } else {
            (i + 1, st)
        }
    } else {
        match class_relationship(line) {
            Some(r) => (i + 1, ClassState {
                nodes: ensure_class(ensure_class(st.nodes, r.from), r.to),
                rels: st.rels.push(r),
            }),
            None => (i + 1, st),
        }
    }
}

/// The class diagram over lines `i..`.
pub open spec fn class_from(ls: Seq<Seq<char>>, i: int, st: ClassState) -> ClassState
    decreases ls.len() - i,
{
    if i < 0 || i >= ls.len() {
        st
    } else {
        let (j, next) = class_step(ls, i, st);
        if i < j <= ls.len() {
            class_from(ls, j, next)
        } else {
            next
        }
    }
}

/// The class diagram that `source` describes.
pub open spec fn parse_class(source: Seq<char>) -> DiagramV {
    let st = class_from(lines(source), 0, ClassState { nodes: Seq::empty(), rels: Seq::empty() });
    DiagramV { nodes: st.nodes, relationships: st.rels, ..empty_diagram_v(DiagramType::Class) }
}

pub open spec fn rels_v(v: Seq<Relationship>) -> Seq<RelationshipV> {
    v.map_values(|r: Relationship| r@)
}

fn ensure_class_exec(nodes: &mut Vec<Node>, name: &[char]) -> (idx: usize)
    ensures
        nodes_v(final(nodes)@) == ensure_class(nodes_v(old(nodes)@), name@),
        index_of_id(nodes_v(final(nodes)@), name@, 0) == Some(idx as int),
        idx < final(nodes)@.len(),
{
    let ghost old_v = nodes_v(nodes@);
    let mut k: usize = 0;
    while k < nodes.len()
        invariant
            nodes@ == old(nodes)@,
            old_v == nodes_v(nodes@),
            k <= nodes@.len(),
            index_of_id(old_v, name@, 0) == index_of_id(old_v, name@, k as int),
        decreases nodes@.len() - k,
    {
        if string_is(&nodes[k].id, name) {
            return k;
        }
        k = k + 1;
    }
    let idx = nodes.len();
    nodes.push(Node::new(string_of(name), string_of(name)));
    assert(nodes_v(nodes@) =~= old_v.push(node_v(name@, name@)));
    proof {
        lemma_index_of_id_bound(old_v, name@, 0);
        lemma_index_prefix(old_v, node_v(name@, name@), name@, 0);
    }
    idx
}

/// A name absent from `nodes` is found at the end of `nodes.push(n)`.
proof fn lemma_index_prefix(nodes: Seq<NodeV>, n: NodeV, id: Seq<char>, i: int)
    requires
        0 <= i <= nodes.len(),
        n.id == id,
        forall|k: int| i <= k < nodes.len() ==> nodes[k].id != id,
    ensures
        index_of_id(nodes.push(n), id, i) == Some(nodes.len() as int),
    decreases nodes.len() - i,
{
    if i < nodes.len() {
        lemma_index_prefix(nodes, n, id, i + 1);
    }
}

fn gather_of(ls: &Vec<Vec<char>>, i0: usize, def0: Vec<char>) -> (r: (usize, Vec<char>))
    requires
        i0 < ls@.len(),
    ensures
        (r.0 as int, r.1@) == gather(ls@.map_values(|l: Vec<char>| l@), i0 as int, def0@),
        i0 <= r.0 < ls@.len(),
{
    let ghost lv = ls@.map_values(|l: Vec<char>| l@);
    let mut i = i0;
    let mut def = def0;
    while count_char_of(def.as_slice(), '{') > count_char_of(def.as_slice(), '}') && ls.len() - i > 1
        invariant
            i < ls@.len(),
            lv == ls@.map_values(|l: Vec<char>| l@),
            gather(lv, i0 as int, def0@) == gather(lv, i as int, def@),
            i0 <= i,
        decreases ls@.len() - i,
    {
        let next = trim_of(ls[i + 1].as_slice());
        let nl = vec!['\n'];
        let a = concat(def.as_slice(), nl.as_slice());
        def = concat(a.as_slice(), next.as_slice());
        assert(nl@ =~= seq!['\n']);
        i = i + 1;
    }
    (i, def)
}

/// Parses class-diagram source (already trimmed) into a diagram.
pub fn parse_class_of(source: &[char]) -> (r: Diagram)
    ensures
        r@ == parse_class(source@),
{
    let mut nodes: Vec<Node> = Vec::new();
    let mut rels: Vec<Relationship> = Vec::new();
    let ls = lines_of(source);
    let ghost lv = lines(source@);
    assert(ls@.map_values(|l: Vec<char>| l@) =~= lv);
    let ghost init = ClassState { nodes: Seq::empty(), rels: Seq::empty() };
    assert(nodes_v(nodes@) =~= init.nodes);
    assert(rels_v(rels@) =~= init.rels);
    let mut i: usize = 0;
    while i < ls.len()
        invariant
            ls@.len() == lv.len(),
            lv == ls@.map_values(|l: Vec<char>| l@),
            class_from(lv, 0, init) == class_from(lv, i as int, ClassState { nodes: nodes_v(nodes@), rels: rels_v(rels@) }),
        decreases ls@.len() - i,
    {
        let ghost st = ClassState { nodes: nodes_v(nodes@), rels: rels_v(rels@) };
        let ghost step = class_step(lv, i as int, st);
        let line = trim_of(ls[i].as_slice());
        assert(line@ == trim(lv[i as int]));
        let comment = chars_of("%%");
        let kw = chars_of("classDiagram");
        let kw_class = chars_of("class");
        let brace = chars_of("{");
        if starts_with_of(line.as_slice(), comment.as_slice()) || line.len() == 0 || starts_with_of(
            line.as_slice(),
            kw.as_slice(),
        ) {
            i = i + 1;
        } else if starts_with_of(line.as_slice(), kw_class.as_slice()) && contains_of(line.as_slice(), brace.as_slice()) {
            let w = words_of(line.as_slice());
            let name = if w.len() > 1 { trim_of(w[1].as_slice()) } else { Vec::new() };
            if name.len() > 0 {
                let (j, def) = gather_of(&ls, i, crate::text::copy_of(line.as_slice()));
                let members = class_members_of(def.as_slice());
                let idx = ensure_class_exec(&mut nodes, name.as_slice());
                let ghost nv = nodes_v(nodes@);
                nodes[idx].members = members;
                assert(nodes_v(nodes@) =~= nv.update(idx as int, NodeV { members: class_members(def@), ..nv[idx as int] }));
                i = j + 1;
            } else {
                i = i + 1;
            }
        } else if starts_with_of(line.as_slice(), kw_class.as_slice()) {
            let w = words_of(line.as_slice());
            if w.len() > 1 {
                ensure_class_exec(&mut nodes, w[1].as_slice());
            }
            i = i + 1;
        } else {
            match class_relationship_of(line.as_slice()) {
                Some((from, to, token)) => {
                    ensure_class_exec(&mut nodes, from.as_slice());
                    ensure_class_exec(&mut nodes, to.as_slice());
                    let ghost rv = rels_v(rels@);
                    let r = Relationship {
                        from: string_of(from.as_slice()),
                        to: string_of(to.as_slice()),
                        rel_type: string_of(token.as_slice()),
                    };
                    rels.push(r);
                    assert(rels_v(rels@) =~= rv.push(r@));
                },
                None => {},
            }
            i = i + 1;
        }
        assert(step.0 == i as int);
        assert(step.1 == ClassState { nodes: nodes_v(nodes@), rels: rels_v(rels@) });
    }
    let mut d = Diagram::empty_of(DiagramType::Class);
    d.nodes = nodes;
    d.relationships = rels;
    d
}

// ---------------------------------------------------------------- laws

/// Every relationship joins two of the classes.
pub open spec fn rels_closed(nodes: Seq<NodeV>, rels: Seq<RelationshipV>) -> bool {
    forall|i: int| 0 <= i < rels.len() ==> has_node(nodes, #[trigger] rels[i].from) && has_node(nodes, rels[i].to)
}

pub open spec fn class_ok(st: ClassState) -> bool {
    ids_distinct(st.nodes) && rels_closed(st.nodes, st.rels)
}

proof fn lemma_ensure_class(nodes: Seq<NodeV>, name: Seq<char>)
    requires
        ids_distinct(nodes),
    ensures
        ids_distinct(ensure_class(nodes, name)),
        keeps_ids(nodes, ensure_class(nodes, name)),
        has_node(ensure_class(nodes, name), name),
{
    lemma_index_of_id_bound(nodes, name, 0);
    let r = ensure_class(nodes, name);
    match index_of_id(nodes, name, 0) {
        Some(k) => {
            assert(r[k].id == name);
        },
        None => {
            assert(r[nodes.len() as int].id == name);
        },
    }
}

proof fn lemma_keeps_rels(a: Seq<NodeV>, b: Seq<NodeV>, rels: Seq<RelationshipV>)
    requires
        keeps_ids(a, b),
        rels_closed(a, rels),
    ensures
        rels_closed(b, rels),
{
    assert forall|i: int| 0 <= i < rels.len() implies has_node(b, #[trigger] rels[i].from) && has_node(b, rels[i].to) by {
        lemma_keeps_has(a, b, rels[i].from);
        lemma_keeps_has(a, b, rels[i].to);
    }
}

proof fn lemma_class_step(ls: Seq<Seq<char>>, i: int, st: ClassState)
    requires
        class_ok(st),
        0 <= i < ls.len(),
    ensures
        class_ok(class_step(ls, i, st).1),
{
    let line = trim(ls[i]);
    if starts_with(line, "%%"@) || line.len() == 0 || starts_with(line, "classDiagram"@) {
    } else if starts_with(line, "class"@) && contains(line, "{"@) {
        let w = words(line);
        let name = if w.len() > 1 { trim(w[1]) } else { Seq::empty() };
        if name.len() > 0 {
            let (j, def) = gather(ls, i, line);
            let nodes = ensure_class(st.nodes, name);
            lemma_ensure_class(st.nodes, name);
            lemma_index_of_id_bound(nodes, name, 0);
            let idx = index_of_id(nodes, name, 0)->0;
            let n2 = nodes.update(idx, NodeV { members: class_members(def), ..nodes[idx] });
            assert(keeps_ids(nodes, n2));
            assert(ids_distinct(n2)) by {
                assert forall|a: int, b: int| 0 <= a < b < n2.len() implies n2[a].id != n2[b].id by {
                    assert(n2[a].id == nodes[a].id);
                    assert(n2[b].id == nodes[b].id);
                }
            }
            lemma_keeps_rels(st.nodes, nodes, st.rels);
            lemma_keeps_rels(nodes, n2, st.rels);
        }
    } else if starts_with(line, "class"@) {
        let w = words(line);
        if w.len() > 1 {
            lemma_ensure_class(st.nodes, w[1]);
            lemma_keeps_rels(st.nodes, ensure_class(st.nodes, w[1]), st.rels);
        }
    } else {
        if let Some(r) = class_relationship(line) {
            let n1 = ensure_class(st.nodes, r.from);
            let n2 = ensure_class(n1, r.to);
            lemma_ensure_class(st.nodes, r.from);
            lemma_ensure_class(n1, r.to);
            lemma_keeps_has(n1, n2, r.from);
            lemma_keeps_rels(st.nodes, n1, st.rels);
            lemma_keeps_rels(n1, n2, st.rels);
            let rels = st.rels.push(r);
            assert forall|k: int| 0 <= k < rels.len() implies has_node(n2, #[trigger] rels[k].from) && has_node(
                n2,
                rels[k].to,
            ) by {
                if k < st.rels.len() {
                    assert(rels[k] == st.rels[k]);
                }
            }
        }
    }
}

proof fn lemma_class_from(ls: Seq<Seq<char>>, i: int, st: ClassState)
    requires
        class_ok(st),
    ensures
        class_ok(class_from(ls, i, st)),
    decreases ls.len() - i,
{
    if 0 <= i < ls.len() {
        lemma_class_step(ls, i, st);
        let (j, next) = class_step(ls, i, st);
        if i < j <= ls.len() {
            lemma_class_from(ls, j, next);
        }
    }
}

/// Parsing a class diagram keeps one class per name, and every relationship
/// joins two of its classes: a class named only in a relationship is declared
/// by it.
pub proof fn law_class_diagram_is_a_graph(source: Seq<char>)
    ensures
        ids_distinct(parse_class(source).nodes),
        rels_closed(parse_class(source).nodes, parse_class(source).relationships),
{
    lemma_class_from(lines(source), 0, ClassState { nodes: Seq::empty(), rels: Seq::empty() });
}

// ---------------------------------------------------------------- visibility

proof fn lemma_starts_with_char(line: Seq<char>, p: Seq<char>, c: char)
    requires
        line.len() > 0,
        p == seq![c],
    ensures
        starts_with(line, p) == (line[0] == c),
{
    if line[0] == c {
        assert(line.take(1) =~= p);
    } else {
        assert(line.take(1)[0] != p[0]);
    }
}

/// A member line's leading marker decides the member's visibility (`+`
/// public, `-` private, `#` protected, `~` package), and the member is shown
/// with that same marker: the rendered member text begins with the line's
/// first character.
pub proof fn law_member_visibility(ms: Seq<MemberV>, raw: Seq<char>)
    requires
        trim(raw).len() > 0,
        markers().contains(trim(raw)[0]),
        member_line(ms, raw).len() == ms.len() + 1,
    ensures
        ({
            let m = member_line(ms, raw).last();
            let c = trim(raw)[0];
            &&& c == '+' ==> m.visibility == Visibility::Public
            &&& c == '-' ==> m.visibility == Visibility::Private
            &&& c == '#' ==> m.visibility == Visibility::Protected
            &&& c == '~' ==> m.visibility == Visibility::Package
            &&& crate::render::lists::member_text(m)[0] == c
        }),
{
    let line = trim(raw);
    reveal_strlit("+");
    reveal_strlit("-");
    reveal_strlit("#");
    reveal_strlit("~");
    assert("+"@ =~= seq!['+'] && "-"@ =~= seq!['-'] && "#"@ =~= seq!['#'] && "~"@ =~= seq!['~']);
    let c = line[0];
    lemma_starts_with_char(line, "+"@, '+');
    lemma_starts_with_char(line, "-"@, '-');
    lemma_starts_with_char(line, "#"@, '#');
    lemma_starts_with_char(line, "~"@, '~');
    let m = member_line(ms, raw).last();
    let prefix = match m.visibility {
        Visibility::Public => "+"@,
        Visibility::Private => "-"@,
        Visibility::Protected => "#"@,
        Visibility::Package => "~"@,
    };
    let suffix: Seq<char> = match m.member_type {
        MemberType::Field => Seq::empty(),
        MemberType::Method => "()"@,
    };
    assert(crate::render::lists::member_text(m) == prefix + m.name + suffix);
    assert((prefix + m.name + suffix)[0] == prefix[0]);
}

} // verus!
