use roots_loader::decode::{
    decode, get_roots_from_morpheme_string, get_roots_from_psql_string, get_roots_from_string,
};
use roots_loader::record::{DecodeError, Kind, Root};

fn rec(word: &str, root: &str, index: isize) -> Root {
    Root { word: word.to_string(), root: root.to_string(), index }
}

#[test]
fn morpheme_single_root() {
    assert_eq!(
        get_roots_from_morpheme_string("cat\troot:ROOT/s:SUF"),
        Ok(vec![rec("cat", "root", 0)])
    );
}

#[test]
fn morpheme_two_roots() {
    assert_eq!(
        get_roots_from_morpheme_string("cat\troot:ROOT/re:ROOT"),
        Ok(vec![rec("cat", "root", 0), rec("cat", "re", 1)])
    );
}

#[test]
fn psql_three_words() {
    assert_eq!(
        get_roots_from_psql_string("run | {running,ran,runs}"),
        Ok(vec![rec("running", "run", -1), rec("ran", "run", -1), rec("runs", "run", -1)])
    );
}

#[test]
fn morpheme_without_root_tag() {
    assert_eq!(get_roots_from_morpheme_string("dog\ts:SUF"), Ok(vec![]));
}

#[test]
fn unsupported_kind_fails() {
    assert_eq!(
        get_roots_from_string("cat\troot:ROOT", "bogus-kind"),
        Err(DecodeError::UnsupportedKind)
    );
    assert_eq!(get_roots_from_string("", "Morphemes"), Err(DecodeError::UnsupportedKind));
    assert_eq!(get_roots_from_string("run | {a}", "psql "), Err(DecodeError::UnsupportedKind));
}

#[test]
fn dispatch_by_kind_name() {
    assert_eq!(
        get_roots_from_string("cat\troot:ROOT/s:SUF", "morphemes"),
        Ok(vec![rec("cat", "root", 0)])
    );
    assert_eq!(get_roots_from_string("run | {ran}", "psql"), Ok(vec![rec("ran", "run", -1)]));
}

#[test]
fn dispatch_by_kind_value() {
    assert_eq!(decode("dog\tdog:ROOT", Kind::Morphemes), Ok(vec![rec("dog", "dog", 0)]));
    assert_eq!(decode("dog | {dogs}", Kind::Psql), Ok(vec![rec("dogs", "dog", -1)]));
}

#[test]
fn kind_names() {
    assert_eq!(Kind::from_name("morphemes"), Some(Kind::Morphemes));
    assert_eq!(Kind::from_name("psql"), Some(Kind::Psql));
    assert_eq!(Kind::from_name("morpheme"), None);
    assert_eq!(Kind::from_name(""), None);
    assert_eq!(Kind::from_name("PSQL"), None);
}

#[test]
fn morpheme_indexes_count_root_tags_only() {
    let recs = get_roots_from_morpheme_string("unkind\tun:PRE/kind:ROOT/ly:SUF/ness:ROOT/x:ROOT")
        .unwrap();
    assert_eq!(
        recs,
        vec![rec("unkind", "kind", 0), rec("unkind", "ness", 1), rec("unkind", "x", 2)]
    );
}

#[test]
fn morpheme_tag_must_be_exactly_root() {
    assert_eq!(
        get_roots_from_morpheme_string("w\ta:ROOTS/b:root/c: ROOT/d:ROOT"),
        Ok(vec![rec("w", "d", 0)])
    );
}

#[test]
fn morpheme_extra_fields_and_pieces_are_ignored() {
    assert_eq!(
        get_roots_from_morpheme_string("w\ta:ROOT:extra\tignored"),
        Ok(vec![rec("w", "a", 0)])
    );
}

#[test]
fn morpheme_empty_root_text() {
    assert_eq!(get_roots_from_morpheme_string("\t:ROOT"), Ok(vec![rec("", "", 0)]));
}

#[test]
fn morpheme_missing_tab() {
    assert_eq!(get_roots_from_morpheme_string("cat root:ROOT"), Err(DecodeError::MissingTab));
    assert_eq!(get_roots_from_morpheme_string(""), Err(DecodeError::MissingTab));
}

#[test]
fn morpheme_missing_colon() {
    assert_eq!(
        get_roots_from_morpheme_string("cat\troot:ROOT/s"),
        Err(DecodeError::MissingColon { descriptor: 1 })
    );
    assert_eq!(
        get_roots_from_morpheme_string("cat\troot:ROOT/"),
        Err(DecodeError::MissingColon { descriptor: 1 })
    );
    assert_eq!(
        get_roots_from_morpheme_string("cat\t"),
        Err(DecodeError::MissingColon { descriptor: 0 })
    );
    assert_eq!(
        get_roots_from_morpheme_string("cat\ta:ROOT/b/c"),
        Err(DecodeError::MissingColon { descriptor: 1 })
    );
}

#[test]
fn psql_missing_pipe() {
    assert_eq!(get_roots_from_psql_string("run {running}"), Err(DecodeError::MissingPipe));
    assert_eq!(get_roots_from_psql_string(""), Err(DecodeError::MissingPipe));
}

#[test]
fn psql_empty_list_gives_one_empty_word() {
    assert_eq!(get_roots_from_psql_string("run | {}"), Ok(vec![rec("", "run", -1)]));
    assert_eq!(get_roots_from_psql_string("run|"), Ok(vec![rec("", "run", -1)]));
}

#[test]
fn psql_strips_every_brace() {
    assert_eq!(
        get_roots_from_psql_string("run | {{a,b}}"),
        Ok(vec![rec("a", "run", -1), rec("b", "run", -1)])
    );
    assert_eq!(
        get_roots_from_psql_string("run | }a{"),
        Ok(vec![rec("a", "run", -1)])
    );
}

#[test]
fn psql_trims_unicode_white_space() {
    assert_eq!(
        get_roots_from_psql_string("\u{3000}run\u{a0} |\u{85}{a, b}\t"),
        Ok(vec![rec("a", "run", -1), rec(" b", "run", -1)])
    );
    assert_eq!(
        get_roots_from_psql_string("\u{200b}run | {a}"),
        Ok(vec![rec("a", "\u{200b}run", -1)])
    );
}

#[test]
fn psql_words_keep_the_root_and_index() {
    let recs = get_roots_from_psql_string("  go | {went,gone,,going}").unwrap();
    assert_eq!(recs.len(), 4);
    for r in &recs {
        assert_eq!(r.root, "go");
        assert_eq!(r.index, -1);
    }
    assert_eq!(recs[2].word, "");
}

#[test]
fn psql_extra_fields_are_ignored() {
    assert_eq!(get_roots_from_psql_string("a | {b} | c"), Ok(vec![rec("b", "a", -1)]));
}

#[test]
fn decoding_twice_gives_the_same_records() {
    for (line, kind) in [
        ("cat\troot:ROOT/re:ROOT", "morphemes"),
        ("run | {running,ran}", "psql"),
        ("cat\tbad", "morphemes"),
        ("x", "other"),
    ] {
        assert_eq!(get_roots_from_string(line, kind), get_roots_from_string(line, kind));
    }
}
