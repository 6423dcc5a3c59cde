use mem_find::{ParsePermsError, Perms};

#[test]
fn perms_round_trip_of_every_value() {
    for bits in 0..16u8 {
        let perms = Perms {
            read: bits & 1 != 0,
            write: bits & 2 != 0,
            execute: bits & 4 != 0,
            shared: bits & 8 != 0,
        };
        let text = perms.to_string();
        assert_eq!(text.len(), 4);
        assert_eq!(text.parse::<Perms>(), Ok(perms));
    }
}

#[test]
fn perms_text_of_each_flag() {
    let none = Perms { read: false, write: false, execute: false, shared: false };
    assert_eq!(none.to_string(), "---p");
    assert_eq!(Perms { read: true, ..none }.to_string(), "r--p");
    assert_eq!(Perms { write: true, ..none }.to_string(), "-w-p");
    assert_eq!(Perms { execute: true, ..none }.to_string(), "--xp");
    assert_eq!(Perms { shared: true, ..none }.to_string(), "---s");
    assert_eq!("rwxs".parse(), Ok(Perms { read: true, write: true, execute: true, shared: true }));
    assert_eq!(
        "r-xp".parse(),
        Ok(Perms { read: true, write: false, execute: true, shared: false })
    );
}

#[test]
fn perms_with_a_wrong_character_are_rejected() {
    for text in [
        "Rwxp", "xwxp", "rrxp", "rWxp", "rwwp", "rwXp", "rwx-", "rwxS", "rwxP", "rwx ", "----",
    ] {
        assert_eq!(text.parse::<Perms>(), Err(ParsePermsError), "{text}");
    }
}

#[test]
fn perms_of_a_wrong_length_are_rejected() {
    for text in ["", "r", "rwx", "rwxpp", " rwxp", "rwxp ", "rw\u{e9}p", "\u{1F600}"] {
        assert_eq!(text.parse::<Perms>(), Err(ParsePermsError), "{text}");
    }
}

#[test]
fn perms_from_and_to_characters() {
    let perms = Perms { read: true, write: false, execute: false, shared: true };
    assert_eq!(Perms::parse_chars(&['r', '-', '-', 's']), Some(perms));
    assert_eq!(Perms::parse_chars(&['r', '-', '-']), None);
    let mut out = vec!['>'];
    perms.write_chars(&mut out);
    assert_eq!(out, vec!['>', 'r', '-', '-', 's']);
}
