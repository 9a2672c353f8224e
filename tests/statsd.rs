use bytes::Bytes;
use statsd_pdu::StatsdPDU;

fn parse(line: &'static [u8]) -> Option<StatsdPDU> {
    StatsdPDU::new(Bytes::from_static(line))
}

#[test]
fn parse_pdus() {
    let valid: Vec<Vec<u8>> = vec![
        b"foo.bar:3|c".to_vec(),
        b"car:bar:3|c".to_vec(),
        b"hello.bar:4.0|ms|#tags".to_vec(),
        b"hello.bar:4.0|ms|@1.0|#tags".to_vec(),
    ];
    for buf in valid {
        println!("{}", String::from_utf8(buf.clone()).unwrap());
        assert!(StatsdPDU::new(buf.into()).is_some(), "no pdu");
    }
}

#[test]
fn simple_pdu() {
    let pdu = StatsdPDU::new(Bytes::from_static(b"foo.car:bar:3.0|c")).unwrap();
    assert_eq!(pdu.name(), b"foo.car:bar");
    assert_eq!(pdu.value(), b"3.0");
    assert_eq!(pdu.pdu_type(), b"c")
}

#[test]
fn tagged_pdu() {
    let pdu = StatsdPDU::new(Bytes::from_static(b"foo.bar:3|c|@1.0|#tags")).unwrap();
    assert_eq!(pdu.name(), b"foo.bar");
    assert_eq!(pdu.value(), b"3");
    assert_eq!(pdu.pdu_type(), b"c");
    assert_eq!(pdu.tags().unwrap(), b"tags");
    assert_eq!(pdu.sample_rate().unwrap(), b"1.0");
}

#[test]
fn tagged_pdu_reverse() {
    let pdu = StatsdPDU::new(Bytes::from_static(b"foo.bar:3|c|#tags|@1.0")).unwrap();
    assert_eq!(pdu.name(), b"foo.bar");
    assert_eq!(pdu.value(), b"3");
    assert_eq!(pdu.pdu_type(), b"c");
    assert_eq!(pdu.tags().unwrap(), b"tags");
    assert_eq!(pdu.sample_rate().unwrap(), b"1.0");
}

#[test]
fn prefix_suffix_test() {
    let opdu = StatsdPDU::new(Bytes::from_static(b"foo.bar:3|c|#tags|@1.0")).unwrap();
    let pdu = opdu.with_prefix_suffix(b"aa", b"bbb");
    assert_eq!(pdu.name(), b"aafoo.barbbb");
    assert_eq!(pdu.value(), b"3");
    assert_eq!(pdu.pdu_type(), b"c");
    assert_eq!(pdu.tags().unwrap(), b"tags");
    assert_eq!(pdu.sample_rate().unwrap(), b"1.0");
}

#[test]
fn plain_unit_fields_spell_out_the_line() {
    let line: &[u8] = b"foo.bar:3|c";
    let pdu = parse(b"foo.bar:3|c").unwrap();
    let mut rebuilt = pdu.name().to_vec();
    rebuilt.push(b':');
    rebuilt.extend_from_slice(pdu.value());
    rebuilt.push(b'|');
    rebuilt.extend_from_slice(pdu.pdu_type());
    assert_eq!(rebuilt.as_slice(), line);
    assert!(pdu.tags().is_none());
    assert!(pdu.sample_rate().is_none());
}

#[test]
fn fields_spell_out_prefix_up_to_type_end() {
    let pdu = parse(b"hello.bar:4.0|ms|@1.0|#tags").unwrap();
    let mut rebuilt = pdu.name().to_vec();
    rebuilt.push(b':');
    rebuilt.extend_from_slice(pdu.value());
    rebuilt.push(b'|');
    rebuilt.extend_from_slice(pdu.pdu_type());
    assert_eq!(rebuilt.as_slice(), b"hello.bar:4.0|ms");
}

#[test]
fn embedded_colons_stay_in_name() {
    let pdu = parse(b"car:bar:3|c").unwrap();
    assert_eq!(pdu.name(), b"car:bar");
    assert_eq!(pdu.value(), b"3");
    assert_eq!(pdu.pdu_type(), b"c");
}

#[test]
fn marker_order_does_not_matter() {
    let a = parse(b"foo.bar:3|c|@1.0|#tags").unwrap();
    let b = parse(b"foo.bar:3|c|#tags|@1.0").unwrap();
    assert_eq!(a.name(), b.name());
    assert_eq!(a.value(), b.value());
    assert_eq!(a.pdu_type(), b.pdu_type());
    assert_eq!(a.tags(), b.tags());
    assert_eq!(a.sample_rate(), b.sample_rate());
    assert_eq!(a.tags().unwrap(), b"tags");
    assert_eq!(a.sample_rate().unwrap(), b"1.0");
}

#[test]
fn tags_only() {
    let pdu = parse(b"hello.bar:4.0|ms|#tags").unwrap();
    assert_eq!(pdu.pdu_type(), b"ms");
    assert_eq!(pdu.tags().unwrap(), b"tags");
    assert!(pdu.sample_rate().is_none());
}

#[test]
fn sample_rate_only() {
    let pdu = parse(b"hello.bar:4.0|ms|@0.5").unwrap();
    assert_eq!(pdu.pdu_type(), b"ms");
    assert_eq!(pdu.sample_rate().unwrap(), b"0.5");
    assert!(pdu.tags().is_none());
}

#[test]
fn rejects_empty_line() {
    assert!(parse(b"").is_none());
}

#[test]
fn rejects_line_without_separators() {
    assert!(parse(b"novalueorsep").is_none());
}

#[test]
fn rejects_repeated_sample_rate() {
    assert!(parse(b"foo.bar:3|c|@1.0|@0.5").is_none());
}

#[test]
fn rejects_repeated_tags() {
    assert!(parse(b"foo.bar:3|c|#a|#b").is_none());
    assert!(parse(b"foo.bar:3|c|#a|@1|#b").is_none());
}

#[test]
fn rejects_missing_value_separator() {
    assert!(parse(b"nosep|c").is_none());
    assert!(parse(b"nosep|c:d").is_none());
}

#[test]
fn rejects_unknown_marker_kind() {
    assert!(parse(b"foo.bar:3|c|x1").is_none());
    assert!(parse(b"foo.bar:3|c|#a|bc").is_none());
    assert!(parse(b"foo.bar:3|c||x").is_none());
}

#[test]
fn trailing_fragment_belongs_to_last_field() {
    let pdu = parse(b"foo.bar:3|c|").unwrap();
    assert_eq!(pdu.pdu_type(), b"c|");
    let pdu = parse(b"foo.bar:3|c|@").unwrap();
    assert_eq!(pdu.pdu_type(), b"c|@");
    assert!(pdu.sample_rate().is_none());
    let pdu = parse(b"foo.bar:3|c|#t|@").unwrap();
    assert_eq!(pdu.pdu_type(), b"c");
    assert_eq!(pdu.tags().unwrap(), b"t|@");
}

#[test]
fn empty_value_and_type_are_allowed() {
    let pdu = parse(b"foo:|").unwrap();
    assert_eq!(pdu.name(), b"foo");
    assert_eq!(pdu.value(), b"");
    assert_eq!(pdu.pdu_type(), b"");
    let pdu = parse(b":1|c").unwrap();
    assert_eq!(pdu.name(), b"");
    assert_eq!(pdu.value(), b"1");
}

#[test]
fn rename_keeps_other_fields() {
    let unit = parse(b"foo.bar:3|c|#tags|@1.0").unwrap();
    let renamed = unit.with_prefix_suffix(b"aa", b"bbb");
    assert_eq!(renamed.name(), b"aafoo.barbbb");
    assert_eq!(renamed.value(), unit.value());
    assert_eq!(renamed.pdu_type(), unit.pdu_type());
    assert_eq!(renamed.tags(), unit.tags());
    assert_eq!(renamed.sample_rate(), unit.sample_rate());
    assert_eq!(unit.name(), b"foo.bar");
    assert_eq!(renamed.as_ref(), b"aafoo.barbbb:3|c|#tags|@1.0");
}

#[test]
fn rename_with_empty_affixes_keeps_unit() {
    let unit = parse(b"a:b:1|g|@0.1").unwrap();
    let renamed = unit.with_prefix_suffix(b"", b"");
    assert_eq!(renamed.as_ref(), unit.as_ref());
    assert_eq!(renamed.name(), b"a:b");
    assert_eq!(renamed.sample_rate().unwrap(), b"0.1");
}

#[test]
fn rename_length_adds_affixes() {
    let unit = parse(b"foo.bar:3|c|#tags|@1.0").unwrap();
    let renamed = unit.with_prefix_suffix(b"pre.", b".post");
    assert_eq!(unit.len(), 22);
    assert_eq!(renamed.len(), unit.len() + 4 + 5);
    assert_eq!(renamed.as_ref().len(), renamed.len());
}

#[test]
fn accessors_repeat_identically() {
    let unit = parse(b"foo.bar:3|c|#tags|@1.0").unwrap();
    assert_eq!(unit.name(), unit.name());
    assert_eq!(unit.value(), unit.value());
    assert_eq!(unit.pdu_type(), unit.pdu_type());
    assert_eq!(unit.tags(), unit.tags());
    assert_eq!(unit.sample_rate(), unit.sample_rate());
    assert_eq!(unit.len(), unit.len());
    assert_eq!(unit.as_ref(), unit.as_ref());
}

#[test]
fn raw_bytes_and_length() {
    let unit = parse(b"foo.bar:3|c").unwrap();
    assert_eq!(unit.as_ref(), b"foo.bar:3|c");
    assert_eq!(unit.len(), 11);
}

#[test]
fn clone_shares_fields() {
    let unit = parse(b"foo.bar:3|c|#tags").unwrap();
    let copy = unit.clone();
    assert_eq!(copy.as_ref(), unit.as_ref());
    assert_eq!(copy.name(), b"foo.bar");
    assert_eq!(copy.tags().unwrap(), b"tags");
}

#[test]
fn renamed_bytes_parse_to_renamed_unit() {
    let unit = parse(b"foo.bar:3|c|#tags|@1.0").unwrap();
    let renamed = unit.with_prefix_suffix(b"a:b.", b".z");
    let again = StatsdPDU::new(Bytes::copy_from_slice(renamed.as_ref())).unwrap();
    assert_eq!(again.name(), renamed.name());
    assert_eq!(again.name(), b"a:b.foo.bar.z");
    assert_eq!(again.value(), renamed.value());
    assert_eq!(again.pdu_type(), renamed.pdu_type());
    assert_eq!(again.tags(), renamed.tags());
    assert_eq!(again.sample_rate(), renamed.sample_rate());
}

#[test]
fn rename_twice_joins_affixes() {
    let unit = parse(b"x:1|ms|@0.5").unwrap();
    let twice = unit
        .with_prefix_suffix(b"p1.", b".s1")
        .with_prefix_suffix(b"p2.", b".s2");
    let once = unit.with_prefix_suffix(b"p2.p1.", b".s1.s2");
    assert_eq!(twice.as_ref(), once.as_ref());
    assert_eq!(twice.name(), b"p2.p1.x.s1.s2");
    assert_eq!(twice.sample_rate(), once.sample_rate());
    assert_eq!(twice.pdu_type(), b"ms");
}
