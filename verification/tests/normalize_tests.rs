use textfreq::sanitize_text;

#[test]
fn case_collapse() {
    assert_eq!(
        sanitize_text("HELLO".to_string()),
        sanitize_text("hello".to_string())
    );
    assert_eq!(sanitize_text("HELLO".to_string()), "hello");
}

#[test]
fn punctuation_fuses_words() {
    assert_eq!(sanitize_text("don't stop".to_string()), "dont stop");
    assert_eq!(sanitize_text("well-known".to_string()), "wellknown");
}

#[test]
fn strip_set_fully_removed() {
    let all_stripped = "`~!@#$%^&*()-_=+[{]};:'\",<.>/?\\|0123456789";
    assert_eq!(sanitize_text(all_stripped.to_string()), "");
}

#[test]
fn breaks_become_spaces_and_ends_are_trimmed() {
    assert_eq!(
        sanitize_text("  Hi\nthere\tnow  ".to_string()),
        "hi there now"
    );
    assert_eq!(sanitize_text("a\r\nb".to_string()), "a  b");
}

#[test]
fn idempotent_on_ordinary_text() {
    let inputs = ["  MiXed \t Text!! here ", "Hi! hi? HI.", "", "plain words"];
    for input in inputs {
        let once = sanitize_text(input.to_string());
        let twice = sanitize_text(once.clone());
        assert_eq!(twice, once);
    }
}

#[test]
fn stripping_can_expose_end_spaces() {
    // Deleting a trailing strip-set character can leave a space at the
    // end of the canonical text; only a second pass would trim it.
    assert_eq!(sanitize_text("a .".to_string()), "a ");
    assert_eq!(sanitize_text("a ".to_string()), "a");
}

#[test]
fn unicode_letters_pass_through_lowercased() {
    assert_eq!(sanitize_text("Crème Brûlée".to_string()), "crème brûlée");
}

#[test]
fn inner_double_spaces_are_kept() {
    assert_eq!(sanitize_text("x y  z".to_string()), "x y  z");
}
