use meraid::cli::{
    decide_color_mode, edge_count, generate_suggestion, node_count, output_dimensions,
    parse_error_position, suggestion_for, theme_name, type_label, ColorChoice, ColorEnv,
};
use meraid::layout::{Position, PositionMap};
use meraid::parser::ParseError;
use meraid::render::ops::{pad_measured, pad_string, pad_string_left, truncate_to_width};
use meraid::theme::ansi::{
    clear_line, clear_screen, cursor_back, cursor_down, cursor_forward, cursor_position, cursor_up,
};
use meraid::theme::Color;
use meraid::{
    parse_mermaid, render, render_with_theme, ColorMode, Diagram, DiagramType, Layout, Renderer,
    Theme, ThemeType,
};

fn plain_render(src: &str) -> String {
    let d = parse_mermaid(src).unwrap();
    Renderer::new(Theme::get(ThemeType::Default)).render_diagram(&d)
}

fn colored_render(src: &str, theme: ThemeType, mode: ColorMode, ascii: bool) -> String {
    let d = parse_mermaid(src).unwrap();
    Renderer::new(Theme::get(theme))
        .ascii_only(ascii)
        .color_mode(mode)
        .render_diagram(&d)
}

fn without_escapes(s: &str) -> String {
    let mut out = String::new();
    let mut chars = s.chars();
    while let Some(c) = chars.next() {
        if c == '\x1b' {
            for e in chars.by_ref() {
                if e == 'm' {
                    break;
                }
            }
        } else {
            out.push(c);
        }
    }
    out
}

// ---------------------------------------------------------------- pie

#[test]
fn pie_shares_and_bars_are_exact() {
    let out = plain_render("pie title T\nA : 1\nB : 3");
    assert_eq!(
        out,
        "A┃██████████ 25.0%\nB┃██████████████████████████████ 75.0%\n"
    );
}

#[test]
fn pie_rounds_bar_half_up_and_percent_half_to_even() {
    // 1/16 is 6.25%: the percentage rounds to even, the bar (2.5 cells) up.
    let out = plain_render("pie title T\nA : 1\nB : 15");
    let first = out.lines().next().unwrap();
    assert_eq!(first, "A┃███ 6.2%");
}

#[test]
fn pie_right_aligns_labels_and_uses_ascii_glyphs() {
    let out = colored_render("pie title T\nLong : 1\nB : 1", ThemeType::Default, ColorMode::NoColor, true);
    assert_eq!(
        out,
        "Long|#################### 50.0%\n   B|#################### 50.0%\n"
    );
}

#[test]
fn pie_negative_values_count_as_zero() {
    let out = plain_render("pie title T\nA : -5\nB : 5");
    assert!(out.contains("A┃ 0.0%"));
    assert!(out.contains("100.0%"));
}

#[test]
fn pie_without_data_says_so() {
    assert_eq!(plain_render("pie title T\nA : 0"), "No data to display\n");
}

#[test]
fn pie_reads_decimal_values() {
    let out = plain_render("pie title T\nA : 0.5\nB : 1.5");
    assert!(out.contains("25.0%"));
    assert!(out.contains("75.0%"));
}

// ---------------------------------------------------------------- flowcharts

#[test]
fn flowchart_boxes_and_arrow_are_drawn() {
    let out = plain_render("graph LR\nA --> B");
    let lines: Vec<&str> = out.lines().collect();
    assert_eq!(lines.len(), 4);
    assert_eq!(lines[0], "┌──────────┐    ┌──────────┐");
    assert_eq!(lines[1], "│    A     │───▶│    B     │");
    assert_eq!(lines[2], "│          │    │          │");
    assert_eq!(lines[3], "└──────────┘    └──────────┘");
}

#[test]
fn flowchart_nodes_never_share_a_corner() {
    let src = "graph LR\nA --> B\nA --> C\nA --> D\nB --> E\nC --> E\nD --> E\nE --> F";
    let d = parse_mermaid(src).unwrap();
    let layout = Layout::new(&d).layout();
    let ps = layout.positions.values();
    assert_eq!(ps.len(), 6);
    for i in 0..ps.len() {
        for j in (i + 1)..ps.len() {
            assert!(ps[i].x != ps[j].x || ps[i].y != ps[j].y);
        }
    }
}

#[test]
fn flowchart_edges_point_to_later_columns() {
    let d = parse_mermaid("graph LR\nA --> B --> C\nA --> C").unwrap();
    let layout = Layout::new(&d).layout();
    let a = layout.positions.get("A").unwrap().x;
    let b = layout.positions.get("B").unwrap().x;
    let c = layout.positions.get("C").unwrap().x;
    assert!(a < b && b < c);
}

#[test]
fn flowchart_box_width_follows_the_widest_label() {
    let d = parse_mermaid("graph LR\nA[A fairly long label] --> B").unwrap();
    let layout = Layout::new(&d).layout();
    assert_eq!(layout.positions.get("A").unwrap().width, 21);
    assert_eq!(layout.positions.get("B").unwrap().width, 21);
}

#[test]
fn ascii_flowchart_draws_only_ascii() {
    let out = colored_render("graph LR\nA --> B\nB --> C\nB --> D", ThemeType::Neon, ColorMode::NoColor, true);
    assert!(out.chars().all(|c| c.is_ascii()));
}

#[test]
fn ascii_mode_output_is_ascii_for_every_type_and_color_mode() {
    let samples = [
        "graph TD\nA[Start] --> B{OK?}\nB -->|yes| C[Save]\nB -.-> A\n",
        "sequenceDiagram\nAlice->>Bob: Hello\nBob-->>Alice: Hi\nBob->>Bob: think\n",
        "classDiagram\nclass Animal {\n+String name\n+makeSound()\n}\nAnimal <|-- Dog\n",
        "stateDiagram-v2\n[*] --> Idle\nIdle --> Done: go\nDone --> [*]\n",
        "pie title Pets\n\"Dogs\" : 386\n\"Cats\" : 85\n",
        "erDiagram\nCUSTOMER {\nint id PK\n}\nCUSTOMER ||--o{ ORDER : places\n",
    ];
    for src in samples {
        for mode in [ColorMode::NoColor, ColorMode::Ansi256, ColorMode::TrueColor] {
            let out = colored_render(src, ThemeType::Phosphor, mode, true);
            assert!(!out.is_empty());
            assert!(out.chars().all(|c| c.is_ascii()), "{}", out);
        }
    }
}

// ---------------------------------------------------------------- color

#[test]
fn colored_output_strips_to_monochrome_for_every_type() {
    let samples = [
        "graph LR\nA[Start] --> B{OK?}\nB -->|yes| C[Save]\n",
        "sequenceDiagram\nAlice->>Bob: Hello\nBob-->>Alice: Hi\n",
        "classDiagram\nclass Animal {\n+String name\n+makeSound()\n}\nAnimal <|-- Dog\n",
        "stateDiagram-v2\n[*] --> Idle\nIdle --> Done: go\n",
        "pie title Pets\n\"Dogs\" : 386\n\"Cats\" : 85\n",
        "erDiagram\nCUSTOMER {\nint id PK\n}\nCUSTOMER ||--o{ ORDER : places\n",
    ];
    for src in samples {
        for mode in [ColorMode::Ansi256, ColorMode::TrueColor] {
            let colored = colored_render(src, ThemeType::Amber, mode, false);
            let mono = colored_render(src, ThemeType::Amber, ColorMode::NoColor, false);
            assert_eq!(without_escapes(&colored), mono);
        }
    }
}

#[test]
fn color_off_ignores_the_theme() {
    let src = "graph LR\nA --> B";
    let a = colored_render(src, ThemeType::Neon, ColorMode::NoColor, false);
    let b = colored_render(src, ThemeType::Terra, ColorMode::NoColor, false);
    assert_eq!(a, b);
}

#[test]
fn default_theme_is_uncolored_in_every_mode() {
    let src = "sequenceDiagram\nAlice->>Bob: Hello";
    let mono = colored_render(src, ThemeType::Default, ColorMode::NoColor, false);
    assert_eq!(colored_render(src, ThemeType::Default, ColorMode::Ansi256, false), mono);
    assert_eq!(colored_render(src, ThemeType::Default, ColorMode::TrueColor, false), mono);
}

#[test]
fn ansi256_escape_uses_the_palette_index() {
    let out = colored_render("stateDiagram-v2\nA --> B", ThemeType::Neon, ColorMode::Ansi256, false);
    // neon node_fg (255, 0, 255) is index 16 + 36*5 + 0 + 5 = 201.
    assert!(out.contains("\x1b[38;5;201mA\x1b[0m"));
}

#[test]
fn color_exact_values() {
    assert_eq!(Color::new(255, 0, 255).to_ansi256(), 201);
    assert_eq!(Color::new(0, 0, 0).to_ansi256(), 16);
    assert_eq!(Color::new(250, 250, 250).to_ansi256(), 231);
    assert_eq!(Color::new(128, 128, 128).to_ansi256(), 243);
    assert_eq!(Color::new(1, 2, 3).to_escape(), "\x1b[38;5;16m");
}

#[test]
fn gray_ramp_is_monotone() {
    let mut last = 0u8;
    for g in 8u8..=248 {
        let v = Color::new(g, g, g).to_ansi256();
        assert!((232..=255).contains(&v));
        assert!(v >= last);
        last = v;
    }
}

#[test]
fn ansi_helpers_format_sequences() {
    assert_eq!(cursor_up(3), "\x1b[3A");
    assert_eq!(cursor_position(2, 10), "\x1b[2;10H");
    assert_eq!(clear_screen(), "\x1b[2J");
    assert_eq!(clear_line(), "\x1b[2K");
}

// ---------------------------------------------------------------- command-line decisions

#[test]
fn json_is_never_colored_and_explicit_choices_win() {
    for tty in [false, true] {
        for no_color in [false, true] {
            let env = ColorEnv { stdout_is_tty: tty, no_color, term_dumb: true, truecolor: false };
            for choice in [ColorChoice::Auto, ColorChoice::Always, ColorChoice::Never] {
                assert_eq!(decide_color_mode(choice, true, &env), ColorMode::NoColor);
            }
            assert_eq!(decide_color_mode(ColorChoice::Always, false, &env), ColorMode::Ansi256);
            assert_eq!(decide_color_mode(ColorChoice::Never, false, &env), ColorMode::NoColor);
        }
    }
}

#[test]
fn output_dimensions_ignore_trailing_blanks() {
    assert_eq!(output_dimensions("ab  \n\n  \n"), (2, 1));
    assert_eq!(output_dimensions("用户\nx\n"), (4, 2));
    assert_eq!(output_dimensions(""), (0, 0));
}

#[test]
fn error_positions_are_read_from_messages() {
    assert_eq!(parse_error_position("error at line 12, column 3."), (Some(12), Some(3)));
    assert_eq!(parse_error_position("error at line 12, column 3"), (Some(12), Some(3)));
    assert_eq!(parse_error_position("parse error at line 3, column 7"), (Some(3), Some(7)));
    assert_eq!(parse_error_position("bad position 7."), (None, Some(7)));
    // Digits that run to the end of the message are read too.
    assert_eq!(parse_error_position("line 5"), (Some(5), None));
    assert_eq!(parse_error_position("line x5"), (None, None));
    assert_eq!(parse_error_position("no numbers here"), (None, None));
}

#[test]
fn suggestions_match_case_insensitively() {
    assert_eq!(
        generate_suggestion("EMPTY diagram"),
        Some("provide non-empty Mermaid diagram source".to_string())
    );
    assert_eq!(
        generate_suggestion("Unknown Diagram Type"),
        Some("check the diagram type keyword: graph, sequenceDiagram, classDiagram, stateDiagram-v2, erDiagram, pie".to_string())
    );
    assert_eq!(suggestion_for("Syntax"), None);
    assert_eq!(
        suggestion_for("syntax"),
        Some("verify Mermaid syntax at https://mermaid.js.org/intro/".to_string())
    );
    assert_eq!(generate_suggestion("all good"), None);
}

#[test]
fn counts_depend_on_the_diagram_type() {
    let er = parse_mermaid("erDiagram\nCUSTOMER {\nint id PK\n}\nCUSTOMER ||--o{ ORDER : places").unwrap();
    assert_eq!(node_count(&er), 1);
    assert_eq!(edge_count(&er), 1);
    let seq = parse_mermaid("sequenceDiagram\nA->>B: x\nB->>C: y").unwrap();
    assert_eq!(node_count(&seq), 3);
    assert_eq!(edge_count(&seq), 2);
}

#[test]
fn names_for_reports() {
    assert_eq!(theme_name(ThemeType::Phosphor), "phosphor");
    assert_eq!(type_label(DiagramType::ER), "er");
    assert_eq!(type_label(DiagramType::GitGraph), "gitgraph");
}

// ---------------------------------------------------------------- errors and top level

#[test]
fn parse_errors_say_why() {
    assert_eq!(parse_mermaid("").unwrap_err(), ParseError::Empty);
    assert_eq!(
        parse_mermaid("gitGraph\ncommit").unwrap_err(),
        ParseError::Unsupported(DiagramType::GitGraph)
    );
    assert!(ParseError::Empty.message().starts_with("empty diagram"));
    assert!(ParseError::Unsupported(DiagramType::Block)
        .message()
        .starts_with("unsupported diagram type: Block is not implemented yet"));
}

#[test]
fn render_matches_the_pipeline() {
    let src = "graph LR\nA --> B";
    let direct = render(src, ThemeType::Neon).unwrap();
    let d = parse_mermaid(src).unwrap();
    let layout = Layout::new(&d).layout();
    let piped = Renderer::new(Theme::get(ThemeType::Neon)).render(&d, &layout);
    assert_eq!(direct, piped);
    assert_eq!(render_with_theme(src, Theme::get(ThemeType::Neon)).unwrap(), direct);
    assert_eq!(render("", ThemeType::Default), Err(ParseError::Empty));
}

#[test]
fn position_map_keeps_one_entry_per_key() {
    let mut m = PositionMap::new();
    let p = Position { x: 1, y: 2, width: 3, height: 4 };
    let q = Position { x: 5, y: 6, width: 7, height: 8 };
    m.insert(&['a'], p);
    m.insert(&['b'], p);
    m.insert(&['a'], q);
    assert_eq!(m.len(), 2);
    assert_eq!(m.get("a"), Some(q));
    assert_eq!(m.values(), vec![q, p]);
    assert!(!m.is_empty());
}

#[test]
fn empty_diagram_is_empty() {
    let d = Diagram::empty_of(DiagramType::Pie);
    assert!(d.is_empty());
    assert_eq!(d.direction, "LR");
}

#[test]
fn cursor_moves_format_their_counts() {
    assert_eq!(cursor_down(0), "\x1b[0B");
    assert_eq!(cursor_forward(12), "\x1b[12C");
    assert_eq!(cursor_back(65535), "\x1b[65535D");
}

#[test]
fn padding_centres_and_truncates_by_display_width() {
    let cjk: Vec<char> = "用户服务".chars().collect();
    assert_eq!(pad_string(&cjk, 16).iter().collect::<String>(), "    用户服务    ");
    assert_eq!(truncate_to_width(&cjk, 5).iter().collect::<String>(), "用户");
    let ab: Vec<char> = "ab".chars().collect();
    assert_eq!(pad_string_left(&ab, 5).iter().collect::<String>(), "ab   ");
    assert_eq!(pad_measured(&ab, 2, 7, false).iter().collect::<String>(), "  ab   ");
    assert_eq!(pad_measured(&ab, 9, 7, true).iter().collect::<String>(), "ab");
}

#[test]
fn class_names_with_word_characters_parse() {
    let d = parse_mermaid("classDiagram\nclass Ünïcode_1 {\n+x\n}").unwrap();
    assert_eq!(d.nodes[0].id, "Ünïcode_1");
}

// ---------------------------------------------------------------- parsed graphs

#[test]
fn flowchart_parse_keeps_one_node_per_id_and_closes_edges() {
    let d = parse_mermaid("graph LR\nA --> B\nA[Start] --> C\nB --> A\nC --> D --> B").unwrap();
    let ids: Vec<&str> = d.nodes.iter().map(|n| n.id.as_str()).collect();
    assert_eq!(ids, vec!["A", "B", "C", "D"]);
    assert_eq!(d.nodes[0].label, "Start");
    assert_eq!(d.edges.len(), 5);
    for e in &d.edges {
        assert!(ids.contains(&e.from.as_str()));
        assert!(ids.contains(&e.to.as_str()));
    }
}

#[test]
fn sequence_parse_lists_each_participant_once() {
    let d = parse_mermaid("sequenceDiagram\nparticipant Alice\nAlice->>Bob: hi\nBob-->>Alice: yo\nparticipant Bob\nCarol->>Bob: hey")
        .unwrap();
    assert_eq!(d.participants, vec!["Alice".to_string(), "Bob".to_string(), "Carol".to_string()]);
    for e in &d.edges {
        assert!(d.participants.contains(&e.from));
        assert!(d.participants.contains(&e.to));
    }
}

#[test]
fn class_parse_keeps_one_class_per_name_and_closes_relationships() {
    let d = parse_mermaid("classDiagram\nclass Animal\nAnimal <|-- Dog\nDog --> Animal\nclass Dog {\n+bark()\n}").unwrap();
    let ids: Vec<&str> = d.nodes.iter().map(|n| n.id.as_str()).collect();
    assert_eq!(ids, vec!["Animal", "Dog"]);
    assert_eq!(d.nodes[1].members.len(), 1);
    for r in &d.relationships {
        assert!(ids.contains(&r.from.as_str()));
        assert!(ids.contains(&r.to.as_str()));
    }
}

#[test]
fn library_render_is_the_same_for_every_theme() {
    let src = "graph LR\nA[Start] --> B{OK?}\nB -->|yes| C[Save]\n";
    let base = render(src, ThemeType::Default).unwrap();
    for t in [ThemeType::Terra, ThemeType::Neon, ThemeType::Mono, ThemeType::Amber, ThemeType::Phosphor] {
        assert_eq!(render(src, t).unwrap(), base);
    }
    assert!(!base.contains('\x1b'));
}

// ---------------------------------------------------------------- output shapes

#[test]
fn flowchart_output_lines_have_no_trailing_blanks() {
    let out = plain_render("graph TD\nA[Start] --> B{OK?}\nB -->|yes| C[Save]\nB --> D\n");
    assert!(out.ends_with('\n'));
    let lines: Vec<&str> = out.split_terminator('\n').collect();
    for l in &lines {
        assert_eq!(*l, l.trim_end());
    }
    assert!(!lines.last().unwrap().is_empty());
}

#[test]
fn sequence_message_line_puts_tail_and_head_at_lifelines() {
    let out = plain_render("sequenceDiagram\nAlice->>Bob: hi\nBob-->>Alice: yo\n");
    let lines: Vec<&str> = out.lines().collect();
    assert_eq!(lines.len(), 3 + 2);
    assert_eq!(lines[2], "");
    // pw = max(8, 5) + 4 = 12; columns 6 and 24.
    let first: Vec<char> = lines[3].chars().collect();
    assert_eq!(first[6], '├');
    assert_eq!(first[24], '▶');
    assert!(first[7..24].iter().all(|&c| c == '─'));
    let second: Vec<char> = lines[4].chars().collect();
    assert_eq!(second[24], '┤');
    assert_eq!(second[6], '◀');
    assert!(second[7..24].iter().all(|&c| c == '┄'));
}

#[test]
fn class_output_has_box_lines_then_relationship_lines() {
    let out = plain_render("classDiagram\nclass Animal {\n+String name\n+makeSound()\n}\nAnimal <|-- Dog\n");
    let lines: Vec<&str> = out.lines().collect();
    // Animal: top, name, divider, field, divider, method, bottom, blank = 8.
    // Dog: top, name, divider, empty body, bottom, blank = 6. Then one legend line.
    assert_eq!(lines.len(), 8 + 6 + 1);
    assert_eq!(lines[14], "Animal <|-- Dog");
    assert_eq!(lines[7], "");
}

// ---------------------------------------------------------------- whole-layout laws

#[test]
fn parsing_ignores_surrounding_whitespace() {
    let a = parse_mermaid("  \n graph LR\nA --> B  \n\n").unwrap();
    let b = parse_mermaid("graph LR\nA --> B").unwrap();
    assert_eq!(a.nodes.len(), b.nodes.len());
    assert_eq!(a.edges.len(), b.edges.len());
    assert_eq!(a.direction, b.direction);
    assert!(parse_mermaid("   ").is_err());
}

#[test]
fn upsert_takes_a_label_only_for_bare_references() {
    let d = parse_mermaid("graph LR\nA --> B\nA[Start]\nA[Other]\nB").unwrap();
    assert_eq!(d.nodes.len(), 2);
    assert_eq!(d.nodes[0].label, "Start");
    assert_eq!(d.nodes[1].label, "B");
}

#[test]
fn flowchart_layout_columns_and_canvas_size() {
    let d = parse_mermaid("graph LR\nA --> B\nB --> C\nA --> C").unwrap();
    let l = Layout::new(&d).layout();
    // Box width 12, gap 4: pitch 16; layers 0, 1, 2 (longest paths).
    assert_eq!(l.positions.get("A").unwrap().x, 0);
    assert_eq!(l.positions.get("B").unwrap().x, 16);
    assert_eq!(l.positions.get("C").unwrap().x, 32);
    assert_eq!(l.positions.get("C").unwrap().height, 3);
    assert_eq!(l.width, 32 + 12 + 2);
    let max_y = ["A", "B", "C"].iter().map(|k| l.positions.get(k).unwrap().y).max().unwrap();
    assert_eq!(l.height, max_y + 5);
    let empty = Diagram::default();
    let le = Layout::new(&empty).layout();
    assert_eq!((le.width, le.height), (2, 2));
}
