use ratto::key_spelling::{Key, ascii_spellable, parse_key, spelling_of};

fn spelled(text: &str) -> Key {
    parse_key(text).unwrap_or_else(|err| panic!("`{text}` should name a key: {err:#}"))
}

fn refused(text: &str) -> String {
    format!("{:#}", parse_key(text).expect_err("the spelling is refused"))
}

#[test]
fn a_bare_character_is_its_own_spelling() {
    assert_eq!(spelled("r"), Key::Char('r'));
    assert_eq!(spelled("7"), Key::Char('7'));
    assert_eq!(spelled("?"), Key::Char('?'));
    assert_eq!(spelled("<"), Key::Char('<'));
    assert_eq!(spelled("R"), Key::Char('R'));
    assert_ne!(spelled("r"), spelled("R"));
    assert!(refused("é").contains("rat reads its keys as ASCII"));
}

#[test]
fn every_named_key_has_exactly_one_spelling_and_it_round_trips() {
    for (spelling, key) in [
        ("Enter", Key::Enter),
        ("Esc", Key::Esc),
        ("Tab", Key::Tab),
        ("BackTab", Key::BackTab),
        ("Space", Key::Space),
        ("Up", Key::Up),
        ("Down", Key::Down),
        ("Left", Key::Left),
        ("Right", Key::Right),
        ("Home", Key::Home),
        ("End", Key::End),
        ("PageUp", Key::PageUp),
        ("PageDown", Key::PageDown),
    ] {
        assert_eq!(spelled(spelling), key, "{spelling}");
        assert_eq!(spelling_of(key), spelling, "{key:?}");
    }
}

#[test]
fn the_two_keys_only_windows_delivers_are_not_spellable() {
    for spelling in ["Backspace", "Delete"] {
        let err = refused(spelling);
        assert!(
            err.contains("rat does not read that key on every platform"),
            "{spelling} → {err}"
        );
    }
}

#[test]
fn alt_spells_its_modifier_and_round_trips() {
    for (spelling, key) in [
        ("Alt-h", Key::Alt('h')),
        ("Alt-1", Key::Alt('1')),
        ("Alt-?", Key::Alt('?')),
    ] {
        assert_eq!(spelled(spelling), key, "{spelling}");
        assert_eq!(spelling_of(key), spelling, "{key:?}");
    }
    assert_eq!(spelling_of(Key::Char('r')), "r");
    assert!(refused("Alt- ").contains("is not a key a binding can name"));
}

#[test]
fn the_three_alt_chords_that_open_a_sequence_are_refused() {
    for spelling in ["Alt-[", "Alt-]", "Alt-O"] {
        let err = refused(spelling);
        assert!(
            err.contains("that byte opens an escape sequence"),
            "{spelling} → {err}"
        );
    }
    assert_eq!(spelled("Alt-o"), Key::Alt('o'));
    for spelling in ["[", "]", "O"] {
        assert!(matches!(spelled(spelling), Key::Char(_)), "{spelling}");
    }
}

#[test]
fn a_function_key_is_refused_and_says_so() {
    let err = refused("F5");
    assert!(
        err.contains("`F5` is not a key a binding can name"),
        "{err}"
    );
    assert!(err.contains("rat never sees a function key"), "{err}");
    assert_eq!(spelled("F"), Key::Char('F'));
}

#[test]
fn no_control_chord_is_spellable() {
    for spelling in [
        "Ctrl-a", "Ctrl-c", "Ctrl-e", "Ctrl-u", "Ctrl-w", "Ctrl-x", "Ctrl-",
    ] {
        let err = refused(spelling);
        assert!(
            err.contains("is not a key a binding can name"),
            "{spelling} → {err}"
        );
        assert!(
            err.contains("rat does not read control chords as bindings"),
            "{spelling} → {err}"
        );
    }
}

#[test]
fn alt_and_ctrl_together_is_refused_in_either_order() {
    for spelling in ["Alt-Ctrl-c", "Ctrl-Alt-c"] {
        let err = refused(spelling);
        assert!(
            err.contains("Alt and Ctrl together arrive as neither chord"),
            "{spelling} → {err}"
        );
    }
}

#[test]
fn whitespace_and_control_characters_are_not_bare_characters() {
    assert!(refused(" ").contains("a space is written `Space`"));
    assert!(refused("\t").contains("a tab is written `Tab`"));
    assert!(refused("\u{7}").contains("is not a key a binding can name"));
}

#[test]
fn an_empty_spelling_names_no_key() {
    assert!(refused("").contains("a binding needs a key to name"));
}

#[test]
fn a_near_miss_on_a_named_key_teaches_the_exact_spelling() {
    assert!(refused("enter").contains("write `Enter`"));
    assert!(refused("ESC").contains("write `Esc`"));
    assert!(refused("pageup").contains("write `PageUp`"));
}

#[test]
fn every_refusal_says_what_is_spellable() {
    for spelling in [
        "F5",
        "Ctrl-x",
        "Alt-Ctrl-c",
        " ",
        "",
        "enter",
        "nope",
        "é",
        "Delete",
        "Alt-[",
    ] {
        let err = refused(spelling);
        assert!(
            err.contains("A binding names one ASCII character"),
            "{spelling} → {err}"
        );
        assert!(
            err.contains("`Alt-` and one ASCII character other than `[`, `]` or `O`"),
            "{spelling} → {err}"
        );
        assert!(
            err.contains(
                "Enter, Esc, Tab, BackTab, Space, Up, Down, Left, Right, \
                          Home, End, PageUp, PageDown"
            ),
            "{spelling} → {err}"
        );
        assert!(!err.contains("Ctrl-a"), "{spelling} → {err}");
        assert!(!err.contains("Backspace"), "{spelling} → {err}");
    }
}

#[test]
fn the_enumerated_space_is_the_space_the_parser_accepts() {
    for key in ascii_spellable() {
        assert_eq!(spelled(&spelling_of(key)), key, "{key:?}");
    }
    assert!(ascii_spellable().contains(&Key::Char('r')));
    assert!(ascii_spellable().contains(&Key::Alt('9')));
    assert!(ascii_spellable().contains(&Key::PageDown));
}

#[test]
fn a_refusal_is_one_sentence_with_the_grammar_after_it() {
    assert_eq!(
        refused("nope"),
        "`nope` is not a key a binding can name — no key is spelled that way. \
         A binding names one ASCII character (`r`, `7`, `?`), a named key (Enter, Esc, Tab, \
         BackTab, Space, Up, Down, Left, Right, Home, End, PageUp, PageDown), or `Alt-` and one \
         ASCII character other than `[`, `]` or `O`"
    );
    assert_eq!(ascii_spellable().len(), 13 + 94 + 91);
    assert_eq!(spelling_of(Key::CtrlW), "Ctrl-w");
}
