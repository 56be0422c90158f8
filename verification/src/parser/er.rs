//! Entity-relationship diagrams: entity blocks with attributes and
//! cardinality relationships.

use vstd::prelude::*;
use crate::diagram::{
    AttributeV, Diagram, DiagramType, DiagramV, Entity, EntityAttribute, EntityV, Relationship,
    RelationshipV, empty_diagram_v,
};
use crate::parser::class::rels_v;
use crate::text::{
    chars_of, concat, contains, contains_of, ends_with, ends_with_of, find, find_char,
    find_char_of, find_of, lines, lines_of, slice_of, starts_with, starts_with_of, string_of,
    trim, trim_of, trim_start, trim_start_of, word_chars, word_chars_of, words, words_of,
};

verus! {

/// The right-hand cardinality symbols.
pub open spec fn right_cards() -> Seq<Seq<char>> {
    seq!["||"@, "|{"@, "|o"@, "o|"@, "o{"@]
}

fn right_card(i: usize) -> (r: Vec<char>)
    requires
        i < 5,
    ensures
        r@ == right_cards()[i as int],
{
    if i == 0 {
        chars_of("||")
    } else if i == 1 {
        chars_of("|{")
    } else if i == 2 {
        chars_of("|o")
    } else if i == 3 {
        chars_of("o|")
    } else {
        chars_of("o{")
    }
}

/// The first right-hand cardinality, from index `i` of the table on, that `s` starts with.
pub open spec fn right_card_of(s: Seq<char>, i: int) -> Option<Seq<char>>
    decreases right_cards().len() - i,
{
    if i < 0 || i >= right_cards().len() {
        None
    } else if starts_with(s, right_cards()[i]) {
        Some(right_cards()[i])
    } else {
        right_card_of(s, i + 1)
    }
}

fn right_card_exec(s: &[char]) -> (r: Option<Vec<char>>)
    ensures
        match r {
            Some(c) => right_card_of(s@, 0) == Some(c@) && c@.len() <= s@.len(),
            None => right_card_of(s@, 0) is None,
        },
{
    let mut i: usize = 0;
    while i < 5
        invariant
            i <= 5,
            right_card_of(s@, 0) == right_card_of(s@, i as int),
        decreases 5 - i,
    {
        let c = right_card(i);
        if starts_with_of(s, c.as_slice()) {
            return Some(c);
        }
        i = i + 1;
    }
    None
}

/// A relationship line `A <left>--<right> B : label`, when it is one.
pub open spec fn er_relationship(line: Seq<char>) -> Option<RelationshipV> {
    match find(line, "--"@) {
        Some(d) => {
            let before = words(line.take(d));
            let after = line.skip(d + "--"@.len());
            if before.len() == 0 {
                None
            } else {
                let from = before[0];
                let left = if before.len() > 1 { before[1] } else { Seq::empty() };
                match right_card_of(after, 0) {
                    Some(rc) => {
                        let rest = words(trim_start(after.skip(rc.len() as int)));
                        let to = if rest.len() > 0 { rest[0] } else { Seq::empty() };
                        if from.len() == 0 || to.len() == 0 || !word_chars(from) {
                            None
                        } else {
                            Some(RelationshipV { from, to, rel_type: left + "--"@ + rc })
                        }
                    },
                    None => None,
                }
            }
        },
        None => None,
    }
}

fn er_relationship_of(line: &[char]) -> (r: Option<Relationship>)
    ensures
        match r {
            Some(rel) => er_relationship(line@) == Some(rel@),
            None => er_relationship(line@) is None,
        },
{
    let dd = chars_of("--");
    let d = match find_of(line, dd.as_slice()) {
        Some(d) => d,
        None => return None,
    };
    let n = line.len();
    let head = slice_of(line, 0, d);
    assert(head@ =~= line@.take(d as int));
    let after = slice_of(line, d + dd.len(), n);
    assert(after@ =~= line@.skip(d + dd@.len()));
    let before = words_of(head.as_slice());
    if before.len() == 0 {
        return None;
    }
    let from = crate::text::copy_of(before[0].as_slice());
    let left = if before.len() > 1 { crate::text::copy_of(before[1].as_slice()) } else { Vec::new() };
    let rc = match right_card_exec(after.as_slice()) {
        Some(c) => c,
        None => return None,
    };
    let tail = slice_of(after.as_slice(), rc.len(), after.len());
    assert(tail@ =~= after@.skip(rc@.len() as int));
    let rest_t = trim_start_of(tail.as_slice());
    let rest = words_of(rest_t.as_slice());
    let to = if rest.len() > 0 { crate::text::copy_of(rest[0].as_slice()) } else { Vec::new() };
    if from.len() == 0 || to.len() == 0 || !word_chars_of(from.as_slice()) {
        return None;
    }
    let a = concat(left.as_slice(), dd.as_slice());
    let rel_type = concat(a.as_slice(), rc.as_slice());
    Some(Relationship {
        from: string_of(from.as_slice()),
        to: string_of(to.as_slice()),
        rel_type: string_of(rel_type.as_slice()),
    })
}

/// One attribute line of an entity body: `type name [PK] [FK]`.
pub open spec fn er_attr(attrs: Seq<AttributeV>, raw: Seq<char>) -> Seq<AttributeV> {
    let line = trim(raw);
    if line.len() == 0 {
        attrs
    } else {
        let pk = contains(line, " PK"@) || ends_with(line, " PK"@);
        let fk = contains(line, " FK"@) || ends_with(line, " FK"@);
        let w = words(line);
        if w.len() >= 2 {
            attrs.push(AttributeV { name: w[1], attr_type: w[0], is_primary_key: pk, is_foreign_key: fk })
        } else {
            attrs
        }
    }
}

/// The attributes of an entity body.
pub open spec fn er_body(def: Seq<char>) -> Seq<AttributeV> {
    lines(def).fold_left(Seq::<AttributeV>::empty(), |a: Seq<AttributeV>, l: Seq<char>| er_attr(a, l))
}

pub open spec fn attrs_v(v: Seq<EntityAttribute>) -> Seq<AttributeV> {
    v.map_values(|a: EntityAttribute| a@)
}

fn er_body_of(def: &[char]) -> (r: Vec<EntityAttribute>)
    ensures
        attrs_v(r@) == er_body(def@),
{
    let mut attrs: Vec<EntityAttribute> = Vec::new();
    assert(attrs_v(attrs@) =~= Seq::<AttributeV>::empty());
    let ls = lines_of(def);
    let ghost lv = lines(def@);
    let pk_t = chars_of(" PK");
    let fk_t = chars_of(" FK");
    let mut i: usize = 0;
    while i < ls.len()
        invariant
            ls@.len() == lv.len(),
            forall|k: int| 0 <= k < ls@.len() ==> #[trigger] ls@[k]@ == lv[k],
            i <= ls@.len(),
            pk_t@ == " PK"@,
            fk_t@ == " FK"@,
            attrs_v(attrs@) == lv.take(i as int).fold_left(
                Seq::<AttributeV>::empty(),
                |a: Seq<AttributeV>, l: Seq<char>| er_attr(a, l),
            ),
        decreases ls@.len() - i,
    {
        let line = trim_of(ls[i].as_slice());
        if line.len() > 0 {
            let pk = contains_of(line.as_slice(), pk_t.as_slice()) || ends_with_of(line.as_slice(), pk_t.as_slice());
            let fk = contains_of(line.as_slice(), fk_t.as_slice()) || ends_with_of(line.as_slice(), fk_t.as_slice());
            let w = words_of(line.as_slice());
            if w.len() >= 2 {
                let ghost av = attrs_v(attrs@);
                let a = EntityAttribute {
                    name: string_of(w[1].as_slice()),
                    attr_type: string_of(w[0].as_slice()),
                    is_primary_key: pk,
                    is_foreign_key: fk,
                };
                attrs.push(a);
                assert(attrs_v(attrs@) =~= av.push(a@));
            }
        }
        assert(lv.take(i + 1).drop_last() =~= lv.take(i as int));
        i = i + 1;
    }
    assert(lv.take(lv.len() as int) =~= lv);
    attrs
}

/// An entity body spanning lines from line `i` on: `segment` is the text of
/// line `i` still to read, `body` what was read before it.
pub open spec fn er_block(ls: Seq<Seq<char>>, i: int, segment: Seq<char>, body: Seq<char>) -> (int, Seq<char>)
    decreases ls.len() - i,
{
    match find_char(segment, '}') {
        Some(c) => (i, body + segment.take(c)),
        None => {
            let b2 = body + segment + seq!['\n'];
            if 0 <= i && i + 1 < ls.len() {
                er_block(ls, i + 1, trim(ls[i + 1]), b2)
            } else {
                (i + 1, b2)
            }
        },
    }
}

pub struct ErState {
    pub entities: Seq<EntityV>,
    pub rels: Seq<RelationshipV>,
}

/// One step over line `i`: the index of the next line and the new state.
pub open spec fn er_step(ls: Seq<Seq<char>>, i: int, st: ErState) -> (int, ErState) {
    let line = trim(ls[i]);
    if line.len() == 0 || starts_with(line, "%%"@) || starts_with(line, "erDiagram"@) {
        (i + 1, st)
    } else if find_char(line, '{') is Some && !contains(line, "--"@) {
        let b = find_char(line, '{')->0;
        let name = trim(line.take(b));
        let (j, body) = er_block(ls, i, line.skip(b + 1), Seq::empty());
        let entities = if name.len() > 0 && word_chars(name) {
            st.entities.push(EntityV { name, attributes: er_body(body) })
        } else {
            st.entities
        };
        (j + 1, ErState { entities, ..st })
    } else {
        match er_relationship(line) {
            Some(r) => (i + 1, ErState { rels: st.rels.push(r), ..st }),
            None => (i + 1, st),
        }
    }
}

/// The ER diagram over lines `i..`.
pub open spec fn er_from(ls: Seq<Seq<char>>, i: int, st: ErState) -> ErState
    decreases ls.len() - i,
{
    if i < 0 || i >= ls.len() {
        st
    } else {
        let (j, next) = er_step(ls, i, st);
        if i < j <= ls.len() {
            er_from(ls, j, next)
        } else {
            next
        }
    }
}

/// The ER diagram that `source` describes.
pub open spec fn parse_er(source: Seq<char>) -> DiagramV {
    let st = er_from(lines(source), 0, ErState { entities: Seq::empty(), rels: Seq::empty() });
    DiagramV { entities: st.entities, relationships: st.rels, ..empty_diagram_v(DiagramType::ER) }
}

pub open spec fn entities_v(v: Seq<Entity>) -> Seq<EntityV> {
    v.map_values(|e: Entity| e@)
}

fn er_block_of(ls: &Vec<Vec<char>>, i0: usize, segment0: Vec<char>) -> (r: (usize, Vec<char>))
    requires
        i0 < ls@.len(),
    ensures
        (r.0 as int, r.1@) == er_block(ls@.map_values(|l: Vec<char>| l@), i0 as int, segment0@, Seq::empty()),
        i0 <= r.0 <= ls@.len(),
{
    let ghost lv = ls@.map_values(|l: Vec<char>| l@);
    let mut i = i0;
    let mut segment = segment0;
    let mut body: Vec<char> = Vec::new();
    loop
        invariant
            i0 <= i < ls@.len(),
            lv == ls@.map_values(|l: Vec<char>| l@),
            er_block(lv, i0 as int, segment0@, Seq::empty()) == er_block(lv, i as int, segment@, body@),
        decreases ls@.len() - i,
    {
        match find_char_of(segment.as_slice(), '}') {
            Some(c) => {
                let part = slice_of(segment.as_slice(), 0, c);
                assert(part@ =~= segment@.take(c as int));
                let b = concat(body.as_slice(), part.as_slice());
                return (i, b);
            },
            None => {
                let nl = vec!['\n'];
                assert(nl@ =~= seq!['\n']);
                let a = concat(body.as_slice(), segment.as_slice());
                body = concat(a.as_slice(), nl.as_slice());
                if ls.len() - i > 1 {
                    segment = trim_of(ls[i + 1].as_slice());
                    i = i + 1;
                } else {
                    return (i + 1, body);
                }
            },
        }
    }
}

/// Parses ER-diagram source (already trimmed) into a diagram.
pub fn parse_er_of(source: &[char]) -> (r: Diagram)
    ensures
        r@ == parse_er(source@),
{
    let mut entities: Vec<Entity> = Vec::new();
    let mut rels: Vec<Relationship> = Vec::new();
    let ls = lines_of(source);
    let ghost lv = lines(source@);
    assert(ls@.map_values(|l: Vec<char>| l@) =~= lv);
    let ghost init = ErState { entities: Seq::empty(), rels: Seq::empty() };
    assert(entities_v(entities@) =~= init.entities);
    assert(rels_v(rels@) =~= init.rels);
    let mut i: usize = 0;
    while i < ls.len()
        invariant
            ls@.len() == lv.len(),
            lv == ls@.map_values(|l: Vec<char>| l@),
            er_from(lv, 0, init) == er_from(lv, i as int, ErState { entities: entities_v(entities@), rels: rels_v(rels@) }),
        decreases ls@.len() - i,
    {
        let ghost step = er_step(lv, i as int, ErState { entities: entities_v(entities@), rels: rels_v(rels@) });
        let line = trim_of(ls[i].as_slice());
        assert(line@ == trim(lv[i as int]));
        let comment = chars_of("%%");
        let kw = chars_of("erDiagram");
        let dd = chars_of("--");
        if line.len() == 0 || starts_with_of(line.as_slice(), comment.as_slice()) || starts_with_of(
            line.as_slice(),
            kw.as_slice(),
        ) {
            i = i + 1;
        } else {
            let brace = find_char_of(line.as_slice(), '{');
            if brace.is_some() && !contains_of(line.as_slice(), dd.as_slice()) {
                let b = brace.unwrap();
                let n = line.len();
                let head = slice_of(line.as_slice(), 0, b);
                assert(head@ =~= line@.take(b as int));
                let name = trim_of(head.as_slice());
                let seg = slice_of(line.as_slice(), b + 1, n);
                assert(seg@ =~= line@.skip(b + 1));
                let (j, body) = er_block_of(&ls, i, seg);
                if name.len() > 0 && word_chars_of(name.as_slice()) {
                    let attributes = er_body_of(body.as_slice());
                    let ghost ev = entities_v(entities@);
                    let e = Entity { name: string_of(name.as_slice()), attributes };
                    entities.push(e);
                    assert(entities_v(entities@) =~= ev.push(e@));
                }
                if j < ls.len() {
                    i = j + 1;
                } else {
                    i = ls.len();
                }
            } else {
                match er_relationship_of(line.as_slice()) {
                    Some(r) => {
                        let ghost rv = rels_v(rels@);
                        rels.push(r);
                        assert(rels_v(rels@) =~= rv.push(r@));
                    },
                    None => {},
                }
                i = i + 1;
            }
        }
        assert(step.0 == i as int || (step.0 > ls@.len() && i == ls@.len()));
        assert(step.1 == ErState { entities: entities_v(entities@), rels: rels_v(rels@) });
    }
    let mut d = Diagram::empty_of(DiagramType::ER);
    d.entities = entities;
    d.relationships = rels;
    d
}

// ---------------------------------------------------------------- attributes

/// An entity-body line `type name [PK] [FK]` adds one attribute whose name is
/// the line's second word and whose type is its first word; the box then
/// shows the name, not the type, after the markers.
pub proof fn law_attribute_words(attrs: Seq<AttributeV>, raw: Seq<char>)
    requires
        words(trim(raw)).len() >= 2,
    ensures
        er_attr(attrs, raw).len() == attrs.len() + 1,
        er_attr(attrs, raw).last().name == words(trim(raw))[1],
        er_attr(attrs, raw).last().attr_type == words(trim(raw))[0],
        ({
            let t = crate::render::lists::attr_text(er_attr(attrs, raw).last());
            t.subrange(t.len() - words(trim(raw))[1].len(), t.len() as int) == words(trim(raw))[1]
        }),
{
    let line = trim(raw);
    assert(line.len() > 0);
    let a = er_attr(attrs, raw).last();
    let t = crate::render::lists::attr_text(a);
    let head = (if a.is_primary_key { "PK"@ } else { "  "@ }) + " "@ + (if a.is_foreign_key { "FK"@ } else { "  "@ })
        + " : "@;
    assert(t == head + a.name);
    assert(t.subrange(t.len() - a.name.len(), t.len() as int) =~= a.name);
}

} // verus!
