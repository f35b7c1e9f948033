use mail_parser::parsers::fields::thread::{thread_name, trim_trailing_fwd};

const SUBJECTS: &[&str] = &[
    "",
    " ",
    "re: hello",
    "Re: [PATCH] Fwd: deprecate UNIVERSAL->import",
    "[fwd: re: fw: hello world (fwd)]",
    "[mailing-list] wg[8]:re:  hello world (fwd)(fwd)",
    "res: rv: enc: továbbítás: hello world (doorst)",
    "  hello  ",
    "hello () (fwd) ()(fwd)",
    "(fwd)hello(fwd)",
    " 你好世界(fwd) ",
    "re:\u{a0}non breaking space",
    "\nfoo\rbar \tbaz ",
    "[fwd: a: b]",
    "re: [fwd: re: hello]",
    "[a] [b] c",
    "hello (i)",
    "x (re)",
    "ab: //x",
    "[PATCH v2] re: x (fwd)",
    "\u{3000}hello\u{3000}",
];

fn is_piece_of(piece: &str, whole: &str) -> bool {
    let start = piece.as_ptr() as usize;
    let base = whole.as_ptr() as usize;
    start >= base && start + piece.len() <= base + whole.len()
}

#[test]
fn results_are_pieces_of_the_input() {
    for s in SUBJECTS {
        let name = thread_name(s);
        assert!(is_piece_of(name, s), "{s:?}");
        assert!(s.contains(name), "{s:?}");
        let kept = trim_trailing_fwd(s);
        assert!(is_piece_of(kept, s), "{s:?}");
    }
}

#[test]
fn results_have_no_surrounding_whitespace() {
    for s in SUBJECTS {
        for r in [thread_name(s), trim_trailing_fwd(s)] {
            if let (Some(first), Some(last)) = (r.chars().next(), r.chars().last()) {
                assert!(!first.is_whitespace() && !last.is_whitespace(), "{s:?} -> {r:?}");
            }
        }
    }
}

#[test]
fn trim_trailing_fwd_is_idempotent() {
    for s in SUBJECTS {
        let once = trim_trailing_fwd(s);
        assert_eq!(trim_trailing_fwd(once), once, "{s:?}");
    }
    assert_eq!(trim_trailing_fwd("hello (wg) (fwd) (fwd)"), "hello");
    assert_eq!(trim_trailing_fwd("hello"), "hello");
}

#[test]
fn thread_name_is_kept_whole_by_trim() {
    for s in SUBJECTS {
        let name = thread_name(s);
        assert_eq!(trim_trailing_fwd(name), name, "{s:?}");
    }
}

#[test]
fn subject_without_separators_is_only_trimmed() {
    for s in ["hello world (fwd)", "  a b (wg)  ", "plain", "", "x (re)", "12 30 meeting"] {
        assert_eq!(thread_name(s), trim_trailing_fwd(s), "{s:?}");
    }
    assert_eq!(thread_name("hello world (fwd)"), "hello world");
}

#[test]
fn trim_without_parentheses_removes_only_whitespace() {
    for s in ["  a b  ", "\u{a0}x y\t", "   ", "x", "", "a [b]: c "] {
        assert_eq!(trim_trailing_fwd(s), s.trim(), "{s:?}");
    }
}

#[test]
fn marker_and_colon_are_removed() {
    for marker in ["Re", "AW", "Odpowiedź", "回复", "Fwd", "RÉF", "hi", "é", "ABCD"] {
        for rest in [" hello", "  world (fwd) ", "", "x y"] {
            let subject = format!("{marker}:{rest}");
            assert_eq!(thread_name(&subject), trim_trailing_fwd(rest), "{subject:?}");
        }
    }
}

#[test]
fn parenthesized_marker_needs_more_than_one_byte() {
    assert_eq!(trim_trailing_fwd("hello (i)"), "hello (i)");
    assert_eq!(trim_trailing_fwd("hello (I)"), "hello (I)");
    assert_eq!(trim_trailing_fwd("hello (转发)"), "hello");
    assert_eq!(trim_trailing_fwd("a (FW)"), "a");
    assert_eq!(trim_trailing_fwd("x (re)"), "x (re)");
    assert_eq!(trim_trailing_fwd("(fwd)"), "");
}

#[test]
fn unlisted_markers_are_short_alphabetic_words() {
    assert_eq!(thread_name("ABCD: x"), "x");
    assert_eq!(thread_name("abcd: x"), "x");
    assert_eq!(thread_name("abcde: x"), "abcde: x");
    assert_eq!(thread_name("é: x"), "x");
    assert_eq!(thread_name("q3: results"), "q3: results");
    assert_eq!(thread_name("ab://x"), "ab://x");
    assert_eq!(thread_name("ab: //x"), "//x");
}

#[test]
fn marker_spans_and_lengths() {
    assert_eq!(thread_name("Podaj dalej : x"), "x");
    assert_eq!(thread_name("re   : x"), "x");
    assert_eq!(thread_name("a b: c"), "a b: c");
    assert_eq!(thread_name("re: a b c: d"), "a b c: d");
    let long = format!("{}: x", "a".repeat(41));
    assert_eq!(thread_name(&long), long.as_str());
    let long_known = format!("{}re: x", " ".repeat(50));
    assert_eq!(thread_name(&long_known), "x");
}

#[test]
fn blobs_and_separators() {
    assert_eq!(thread_name("[fwd: a: b]"), "a: b");
    assert_eq!(thread_name("re: [fwd: re: hello]"), "hello");
    assert_eq!(thread_name("[a] [b] c"), "c");
    assert_eq!(thread_name("[[x]]"), "[[x]]");
    assert_eq!(thread_name("x]"), "x]");
    assert_eq!(thread_name("::"), "::");
    assert_eq!(thread_name("[fwd:]"), "[fwd:]");
    assert_eq!(thread_name("Fwd:"), "");
    assert_eq!(thread_name("fwd: (fwd)"), "");
    assert_eq!(thread_name("re: re: re: x"), "x");
    assert_eq!(thread_name("[PATCH v2] re: x (fwd)"), "x");
}

#[test]
fn unicode_case_and_whitespace() {
    assert_eq!(thread_name("RE: x"), "x");
    assert_eq!(thread_name("ΣΧΕΤ: γεια"), "γεια");
    assert_eq!(thread_name("re:\u{a0}x"), "x");
    assert_eq!(thread_name("\u{3000}hello\u{3000}"), "hello");
    assert_eq!(trim_trailing_fwd("merhaba (İLETİLEN)"), "merhaba (İLETİLEN)");
}

#[test]
fn marker_chain_is_removed() {
    assert_eq!(thread_name("Re: AW:  Fwd: hello (fwd)"), "hello");
    assert_eq!(thread_name(" SV:Odp: 回复: x y "), "x y");
    let rest = "  plain text (wg) ";
    let subject = format!("Re: RE: Antwort: {rest}");
    assert_eq!(thread_name(&subject), trim_trailing_fwd(rest));
}

const TEXTS: &[&str] = &["hello", "a: b", "x (fwd)", "re: y", "  z  ", "", "//x", "no re: foobar"];

fn taken_for_marker(p: &str) -> bool {
    let lower = p.to_lowercase();
    let known = ["re", "aw", "fwd", "réf"].contains(&lower.as_str());
    let generic = (1..=4).contains(&lower.chars().count()) && lower.chars().all(char::is_alphabetic);
    known || generic
}

#[test]
fn marker_then_text_gives_name_of_text() {
    for p in ["Re", "AW", "hi", "é", "meeting", "abcde", "q3", "Fwd", "RÉF"] {
        for s in TEXTS {
            let subject = format!("{p}: {s}");
            let expected = if taken_for_marker(p) {
                thread_name(s)
            } else {
                trim_trailing_fwd(&subject)
            };
            assert_eq!(thread_name(&subject), expected, "{subject:?}");
        }
    }
}

#[test]
fn leading_tag_keeps_name_of_text() {
    for x in ["list", "PATCH v2", "", "a b"] {
        for s in TEXTS {
            if !thread_name(s).is_empty() {
                let subject = format!("[{x}] {s}");
                assert_eq!(thread_name(&subject), thread_name(s), "{subject:?}");
            }
        }
    }
}

#[test]
fn forward_blob_gives_its_text() {
    for w in ["fwd", "Fwd", "WG", "转发"] {
        for s in ["hello", "  x y (fwd) ", "a (b)"] {
            let subject = format!("[{w}: {s}]");
            assert_eq!(thread_name(&subject), trim_trailing_fwd(s), "{subject:?}");
        }
    }
}

#[test]
fn appended_forward_group_is_removed() {
    for w in ["fwd", "WG", "转发", "i\u{307}lt"] {
        for s in ["hello", "  x y ", "a (b)", "", "(fwd)x"] {
            for sep in [" ", "", "  "] {
                let text = format!("{s}{sep}({w})");
                assert_eq!(trim_trailing_fwd(&text), trim_trailing_fwd(s), "{text:?}");
            }
        }
    }
}

#[test]
fn leading_whitespace_keeps_name() {
    for s in TEXTS {
        let subject = format!("  {s}");
        assert_eq!(thread_name(&subject), thread_name(s), "{subject:?}");
    }
}

#[test]
fn kept_text_drops_tail_of_forward_groups() {
    assert_eq!(trim_trailing_fwd("  a (fwd) (x)"), "a (fwd) (x)");
    assert_eq!(trim_trailing_fwd("a (fwd) \t(wg)"), "a");
    assert_eq!(trim_trailing_fwd("a (i)"), "a (i)");
}
