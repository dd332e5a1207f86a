use ulpf::decode::{builtin, builtin_names};

#[test]
fn every_advertised_decoder_resolves() {
    for name in builtin_names() {
        if name == "regex" {
            continue;
        }
        let d = builtin(name).unwrap_or_else(|| panic!("`{name}` is advertised but missing"));
        assert_eq!(d.name(), name);
    }
}

#[test]
fn unknown_decoder_is_none() {
    assert!(builtin("protobuf").is_none());
}

#[test]
fn regex_has_no_zero_argument_form() {
    assert!(builtin_names().contains(&"regex"));
    assert!(builtin("regex").is_none());
}

#[test]
fn a_resolved_decoder_decodes() {
    let d = builtin("keyvalue").unwrap();
    let out = d.decode("a=1 b=2").unwrap();
    assert_eq!(out.fields.get_str("b"), Some("2"));
    let x = builtin("xml").unwrap();
    assert_eq!(x.decode("<a>1</a>").unwrap().fields.get_str("a"), Some("1"));
}
