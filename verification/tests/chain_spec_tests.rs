use chain_spec::codec::{CodecError, FixedHash, FlexibleNumber, HexBytes};
use chain_spec::document::{ChainSpecDocument, ChainType, DecodeError, GenesisState};

// A 32-byte hash in hex, bytes 0x00, 0x01, .., 0x1f.
fn hash_hex() -> String {
    let mut s = String::from("0x");
    for i in 0..32 {
        s.push_str(&format!("{:02x}", i));
    }
    s
}

fn minimal_doc(extra: &str) -> Vec<u8> {
    let mut s = String::from(
        r#"{"name":"Test","id":"test","bootNodes":[],"genesis":{"raw":{"top":{},"childrenDefault":{}}}"#,
    );
    s.push_str(extra);
    s.push('}');
    s.into_bytes()
}

#[test]
fn hex_bytes_round_trip() {
    let hb = HexBytes { bytes: vec![0, 1, 0xaa, 0xff] };
    let text = hb.encode();
    assert_eq!(text, b"0x0001aaff".to_vec());
    let back = HexBytes::decode(&text).unwrap();
    assert_eq!(back.bytes, vec![0, 1, 0xaa, 0xff]);
}

#[test]
fn hex_bytes_empty() {
    let hb = HexBytes::decode(b"0x").unwrap();
    assert!(hb.bytes.is_empty());
    assert_eq!(hb.encode(), b"0x".to_vec());
}

#[test]
fn hex_bytes_requires_prefix() {
    assert_eq!(HexBytes::decode(b"deadbeef"), Err(CodecError::Format));
}

#[test]
fn hex_bytes_rejects_bad_digits() {
    assert_eq!(HexBytes::decode(b"0xzz"), Err(CodecError::Format));
    assert_eq!(HexBytes::decode(b"0xabc"), Err(CodecError::Format));
    assert!(HexBytes::decode(b"0xAbCd").is_ok());
}

#[test]
fn fixed_hash_round_trip() {
    let bytes: Vec<u8> = (0..32).collect();
    let fh = FixedHash { bytes: bytes.clone() };
    let text = fh.encode();
    assert_eq!(text, hash_hex().into_bytes());
    let back = FixedHash::decode(&text).unwrap();
    assert_eq!(back.bytes, bytes);
}

#[test]
fn fixed_hash_wrong_length() {
    let mut short = String::from("0x");
    for _ in 0..31 {
        short.push_str("ab");
    }
    assert_eq!(
        FixedHash::decode(short.as_bytes()),
        Err(CodecError::Length { actual: 31, expected: 32 })
    );
}

#[test]
fn flexible_number_decimal() {
    let n = FlexibleNumber::decode(b"12345").unwrap();
    assert_eq!(n.value, 12345);
    assert_eq!(n.encode(), b"12345".to_vec());
}

#[test]
fn flexible_number_hex_discards_value() {
    let n = FlexibleNumber::decode(b"0x2a").unwrap();
    assert_eq!(n.value, 0);
}

#[test]
fn flexible_number_neither_form() {
    assert_eq!(FlexibleNumber::decode(b"abc"), Err(CodecError::Format));
    assert_eq!(FlexibleNumber::decode(b"0xzz"), Err(CodecError::Format));
    assert_eq!(FlexibleNumber::decode(b""), Err(CodecError::Format));
}

#[test]
fn flexible_number_overflow() {
    assert_eq!(FlexibleNumber::decode(b"18446744073709551615").unwrap().value, u64::MAX);
    assert_eq!(FlexibleNumber::decode(b"18446744073709551616"), Err(CodecError::Format));
}

#[test]
fn minimal_document_decodes() {
    let d = ChainSpecDocument::decode(&minimal_doc("")).unwrap();
    assert_eq!(d.name, b"Test".to_vec());
    assert_eq!(d.id, b"test".to_vec());
    assert_eq!(d.chain_type, ChainType::Live);
    assert!(d.code_substitutes.is_empty());
    assert!(d.boot_nodes.is_empty());
    assert!(d.telemetry_endpoints.is_none());
    assert!(d.protocol_id.is_none());
    assert!(d.fork_id.is_none());
    assert!(d.properties.is_none());
    assert!(d.fork_blocks.is_none());
    assert!(d.bad_blocks.is_none());
    assert!(d.light_sync_state.is_none());
    assert!(d.parachain.is_none());
    match &d.genesis {
        GenesisState::Raw { top, children_default } => {
            assert!(top.is_empty());
            assert!(children_default.is_empty());
        }
        _ => panic!("expected raw genesis"),
    }
}

#[test]
fn unknown_field_rejected() {
    let text = minimal_doc(r#","unknownKey":1"#);
    assert_eq!(ChainSpecDocument::decode(&text).unwrap_err(), DecodeError::UnknownField { field: b"unknownKey".to_vec() });
}

#[test]
fn missing_required_field() {
    let text =
        br#"{"id":"test","bootNodes":[],"genesis":{"raw":{"top":{},"childrenDefault":{}}}}"#;
    assert_eq!(ChainSpecDocument::decode(text).unwrap_err(), DecodeError::MissingField { field: b"name".to_vec() });
}

#[test]
fn duplicate_field_rejected() {
    let text = br#"{"name":"a","name":"b","id":"test","bootNodes":[],"genesis":{"raw":{"top":{},"childrenDefault":{}}}}"#;
    assert_eq!(ChainSpecDocument::decode(text).unwrap_err(), DecodeError::Format { field: b"name".to_vec() });
}

#[test]
fn genesis_empty_is_ambiguous() {
    let text = br#"{"name":"a","id":"b","bootNodes":[],"genesis":{}}"#;
    assert_eq!(ChainSpecDocument::decode(text).unwrap_err(), DecodeError::AmbiguousVariant { field: b"genesis".to_vec() });
}

#[test]
fn genesis_unknown_tag_is_ambiguous() {
    let text = br#"{"name":"a","id":"b","bootNodes":[],"genesis":{"other":1}}"#;
    assert_eq!(ChainSpecDocument::decode(text).unwrap_err(), DecodeError::AmbiguousVariant { field: b"genesis".to_vec() });
}

#[test]
fn genesis_state_root_hash() {
    let text = format!(
        r#"{{"name":"a","id":"b","bootNodes":[],"genesis":{{"stateRootHash":"{}"}}}}"#,
        hash_hex()
    );
    let d = ChainSpecDocument::decode(text.as_bytes()).unwrap();
    match &d.genesis {
        GenesisState::StateRootHash(h) => {
            assert_eq!(h.bytes, (0..32).collect::<Vec<u8>>());
        }
        _ => panic!("expected state root hash"),
    }
}

#[test]
fn bad_blocks_length_error() {
    let text = minimal_doc(r#","badBlocks":["0xabcd"]"#);
    assert_eq!(ChainSpecDocument::decode(&text).unwrap_err(), DecodeError::Length { field: b"badBlocks".to_vec(), actual: 2, expected: 32 });
}

#[test]
fn fork_id_omitted_never_emitted() {
    let d = ChainSpecDocument::decode(&minimal_doc("")).unwrap();
    let out = d.encode();
    let needle = b"forkId";
    let found = out.windows(needle.len()).any(|w| w == needle);
    assert!(!found);
}

#[test]
fn fork_id_preserved_on_round_trip() {
    let text = minimal_doc(r#","forkId":"abc""#);
    let d = ChainSpecDocument::decode(&text).unwrap();
    assert_eq!(d.fork_id, Some(b"abc".to_vec()));
    let out = d.encode();
    let d2 = ChainSpecDocument::decode(&out).unwrap();
    assert_eq!(d2.fork_id, Some(b"abc".to_vec()));
}

#[test]
fn storage_keys_reencode_sorted() {
    let text = minimal_doc("").into_iter().collect::<Vec<u8>>();
    let text = String::from_utf8(text).unwrap().replace(
        r#""top":{}"#,
        r#""top":{"0x0b":"0x02","0x0a":"0x01"}"#,
    );
    let d = ChainSpecDocument::decode(text.as_bytes()).unwrap();
    match &d.genesis {
        GenesisState::Raw { top, .. } => {
            assert_eq!(top.len(), 2);
            assert_eq!(top[0].0.bytes, vec![0x0a]);
            assert_eq!(top[0].1.bytes, vec![0x01]);
            assert_eq!(top[1].0.bytes, vec![0x0b]);
        }
        _ => panic!("expected raw genesis"),
    }
    let out = String::from_utf8(d.encode()).unwrap();
    let ia = out.find(r#""0x0a":"0x01""#).unwrap();
    let ib = out.find(r#""0x0b":"0x02""#).unwrap();
    assert!(ia < ib);
}

#[test]
fn canonical_encoding_is_exact() {
    let d = ChainSpecDocument::decode(&minimal_doc("")).unwrap();
    let out = String::from_utf8(d.encode()).unwrap();
    let mut expected = String::new();
    expected.push_str(r#"{"name":"Test","id":"test","chainType":"Live","codeSubstitutes":{},"#);
    expected.push_str(r#""bootNodes":[],"telemetryEndpoints":null,"protocolId":null,"#);
    expected.push_str(r#""properties":null,"forkBlocks":null,"badBlocks":null,"#);
    expected.push_str(r#""genesis":{"raw":{"top":{},"childrenDefault":{}}},"lightSyncState":null}"#);
    assert_eq!(out, expected);
}

#[test]
fn parachain_fields_flattened() {
    let text = minimal_doc(r#","relayChain":"polkadot","paraId":1000"#);
    let d = ChainSpecDocument::decode(&text).unwrap();
    let p = d.parachain.as_ref().unwrap();
    assert_eq!(p.relay_chain, b"polkadot".to_vec());
    assert_eq!(p.para_id, 1000);
    let out = String::from_utf8(d.encode()).unwrap();
    assert!(out.ends_with(r#""relayChain":"polkadot","paraId":1000}"#));
}

#[test]
fn parachain_needs_both_fields() {
    let text = minimal_doc(r#","relayChain":"polkadot""#);
    assert_eq!(ChainSpecDocument::decode(&text).unwrap_err(), DecodeError::MissingField { field: b"paraId".to_vec() });
}

#[test]
fn code_substitutes_keys() {
    let text = minimal_doc(r#","codeSubstitutes":{"5":"0x0102","0x01":"0xff"}"#);
    let d = ChainSpecDocument::decode(&text).unwrap();
    assert_eq!(d.code_substitutes.len(), 2);
    assert_eq!(d.code_substitutes[0].0, 0);
    assert_eq!(d.code_substitutes[0].1.bytes, vec![0xff]);
    assert_eq!(d.code_substitutes[1].0, 5);
    assert_eq!(d.code_substitutes[1].1.bytes, vec![0x01, 0x02]);
}

#[test]
fn telemetry_endpoints_decode() {
    let text = minimal_doc(r#","telemetryEndpoints":[["wss://telemetry",1]]"#);
    let d = ChainSpecDocument::decode(&text).unwrap();
    let t = d.telemetry_endpoints.as_ref().unwrap();
    assert_eq!(t.len(), 1);
    assert_eq!(t[0].0, b"wss://telemetry".to_vec());
    assert_eq!(t[0].1, 1);
}

#[test]
fn telemetry_verbosity_out_of_range() {
    let text = minimal_doc(r#","telemetryEndpoints":[["wss://telemetry",256]]"#);
    assert_eq!(ChainSpecDocument::decode(&text).unwrap_err(), DecodeError::Format { field: b"telemetryEndpoints".to_vec() });
}

#[test]
fn chain_type_variants() {
    let text = minimal_doc(r#","chainType":"Development""#);
    let d = ChainSpecDocument::decode(&text).unwrap();
    assert_eq!(d.chain_type, ChainType::Development);

    let text = minimal_doc(r#","chainType":{"Custom":"MyNet"}"#);
    let d = ChainSpecDocument::decode(&text).unwrap();
    assert_eq!(d.chain_type, ChainType::Custom(b"MyNet".to_vec()));

    let text = minimal_doc(r#","chainType":"Other""#);
    assert_eq!(ChainSpecDocument::decode(&text).unwrap_err(), DecodeError::Format { field: b"chainType".to_vec() });
}

#[test]
fn properties_pass_through() {
    let text = minimal_doc(r#","properties":{"tokenSymbol":"DOT","tokenDecimals":10}"#);
    let d = ChainSpecDocument::decode(&text).unwrap();
    assert!(d.properties.is_some());
    let out = String::from_utf8(d.encode()).unwrap();
    assert!(out.contains(r#""properties":{"tokenSymbol":"DOT","tokenDecimals":10}"#));
    let d2 = ChainSpecDocument::decode(out.as_bytes()).unwrap();
    let out2 = d2.encode();
    assert_eq!(out.as_bytes(), &out2[..]);
}

#[test]
fn fork_blocks_decode() {
    let text = minimal_doc(&format!(r#","forkBlocks":[[7,"{}"]]"#, hash_hex()));
    let d = ChainSpecDocument::decode(&text).unwrap();
    let fb = d.fork_blocks.as_ref().unwrap();
    assert_eq!(fb.len(), 1);
    assert_eq!(fb[0].0, 7);
    assert_eq!(fb[0].1.bytes, (0..32).collect::<Vec<u8>>());
}

#[test]
fn bad_blocks_duplicates_collapse() {
    let h = hash_hex();
    let text = minimal_doc(&format!(r#","badBlocks":["{}","{}"]"#, h, h));
    let d = ChainSpecDocument::decode(&text).unwrap();
    assert_eq!(d.bad_blocks.as_ref().unwrap().len(), 1);
}

#[test]
fn consensus_engine_tolerated_not_emitted() {
    let text = minimal_doc(r#","consensusEngine":null"#);
    let d = ChainSpecDocument::decode(&text).unwrap();
    let out = String::from_utf8(d.encode()).unwrap();
    assert!(!out.contains("consensusEngine"));
}

#[test]
fn children_default_storage() {
    let text = minimal_doc("").into_iter().collect::<Vec<u8>>();
    let text = String::from_utf8(text).unwrap().replace(
        r#""childrenDefault":{}"#,
        r#""childrenDefault":{"0x0a":{"childInfo":[1,2,3],"childType":1}}"#,
    );
    let d = ChainSpecDocument::decode(text.as_bytes()).unwrap();
    match &d.genesis {
        GenesisState::Raw { children_default, .. } => {
            assert_eq!(children_default.len(), 1);
            assert_eq!(children_default[0].0.bytes, vec![0x0a]);
            assert_eq!(children_default[0].1.child_info, vec![1, 2, 3]);
            assert_eq!(children_default[0].1.child_type, 1);
        }
        _ => panic!("expected raw genesis"),
    }
}

#[test]
fn not_an_object_is_format_error() {
    assert_eq!(ChainSpecDocument::decode(b"[1,2,3]").unwrap_err(), DecodeError::Format { field: Vec::new() });
    assert_eq!(ChainSpecDocument::decode(b"not json at all").unwrap_err(), DecodeError::Format { field: Vec::new() });
}

#[test]
fn whitespace_tolerated() {
    let text = b" {\n \"name\" : \"Test\" ,\t\"id\":\"test\",\r\n\"bootNodes\": [ ] ,\"genesis\":{ \"raw\" : { \"top\" : { } , \"childrenDefault\" : { } } } } ";
    let d = ChainSpecDocument::decode(text).unwrap();
    assert_eq!(d.name, b"Test".to_vec());
}

#[test]
fn string_escapes_decoded() {
    let text = minimal_doc("").into_iter().collect::<Vec<u8>>();
    let text = String::from_utf8(text)
        .unwrap()
        .replace(r#""name":"Test""#, r#""name":"a\"bA\n""#);
    let d = ChainSpecDocument::decode(text.as_bytes()).unwrap();
    assert_eq!(d.name, b"a\"bA\n".to_vec());
    let out = String::from_utf8(d.encode()).unwrap();
    assert!(out.contains(r#""name":"a\"bA\u000a""#));
}

#[test]
fn genesis_two_tags_is_ambiguous() {
    let text = format!(
        r#"{{"name":"a","id":"b","bootNodes":[],"genesis":{{"raw":{{"top":{{}},"childrenDefault":{{}}}},"stateRootHash":"{}"}}}}"#,
        hash_hex()
    );
    assert_eq!(
        ChainSpecDocument::decode(text.as_bytes()).unwrap_err(),
        DecodeError::AmbiguousVariant { field: b"genesis".to_vec() }
    );
}

#[test]
fn storage_duplicate_keys_collapse() {
    let text = minimal_doc("").into_iter().collect::<Vec<u8>>();
    let text = String::from_utf8(text).unwrap().replace(
        r#""top":{}"#,
        r#""top":{"0x0a":"0x01","0x0A":"0x02"}"#,
    );
    let d = ChainSpecDocument::decode(text.as_bytes()).unwrap();
    match &d.genesis {
        GenesisState::Raw { top, .. } => {
            assert_eq!(top.len(), 1);
            assert_eq!(top[0].0.bytes, vec![0x0a]);
            assert_eq!(top[0].1.bytes, vec![0x02]);
        }
        _ => panic!("expected raw genesis"),
    }
}

#[test]
fn flexible_number_plus_sign() {
    let n = FlexibleNumber::decode(b"+7").unwrap();
    assert_eq!(n.value, 7);
    let text = minimal_doc(r#","codeSubstitutes":{"+7":"0x01"}"#);
    let d = ChainSpecDocument::decode(&text).unwrap();
    assert_eq!(d.code_substitutes[0].0, 7);
}

#[test]
fn malformed_json_rejected() {
    assert!(ChainSpecDocument::decode(b"{\"name\":\"a\"").is_err());
    assert!(ChainSpecDocument::decode(b"{\"name\":007}").is_err());
    assert!(ChainSpecDocument::decode(b"").is_err());
    assert!(ChainSpecDocument::decode(b"{} trailing").is_err());
}

#[test]
fn chain_type_tagged_map_form() {
    let text = minimal_doc(r#","chainType":{"Development":null}"#);
    let d = ChainSpecDocument::decode(&text).unwrap();
    assert_eq!(d.chain_type, ChainType::Development);

    let text = minimal_doc(r#","chainType":{"Live":null}"#);
    let d = ChainSpecDocument::decode(&text).unwrap();
    assert_eq!(d.chain_type, ChainType::Live);

    let text = minimal_doc(r#","chainType":{"Local":null}"#);
    let d = ChainSpecDocument::decode(&text).unwrap();
    assert_eq!(d.chain_type, ChainType::Local);

    let text = minimal_doc(r#","chainType":{"Development":1}"#);
    assert_eq!(
        ChainSpecDocument::decode(&text).unwrap_err(),
        DecodeError::Format { field: b"chainType".to_vec() }
    );
}

#[test]
fn nesting_depth_is_bounded() {
    let mut deep = String::new();
    for _ in 0..200 {
        deep.push('[');
    }
    deep.push('1');
    for _ in 0..200 {
        deep.push(']');
    }
    let text = minimal_doc(&format!(r#","properties":{}"#, deep));
    assert_eq!(
        ChainSpecDocument::decode(&text).unwrap_err(),
        DecodeError::Format { field: Vec::new() }
    );

    let mut ok = String::new();
    for _ in 0..50 {
        ok.push('[');
    }
    ok.push('1');
    for _ in 0..50 {
        ok.push(']');
    }
    let text = minimal_doc(&format!(r#","properties":{}"#, ok));
    assert!(ChainSpecDocument::decode(&text).is_ok());
}

#[test]
fn invalid_utf8_rejected() {
    let mut text = minimal_doc("");
    // Overwrite the 'T' of "Test" with a lone continuation byte.
    let pos = text.windows(4).position(|w| w == b"Test").unwrap();
    text[pos] = 0xFF;
    assert_eq!(
        ChainSpecDocument::decode(&text).unwrap_err(),
        DecodeError::Format { field: Vec::new() }
    );

    let mut text = minimal_doc("");
    let pos = text.windows(4).position(|w| w == b"Test").unwrap();
    text[pos] = 0xC3; // lead byte without its continuation
    assert_eq!(
        ChainSpecDocument::decode(&text).unwrap_err(),
        DecodeError::Format { field: Vec::new() }
    );
}

#[test]
fn valid_utf8_round_trips() {
    // name "café" with a two-byte UTF-8 'é'.
    let mut text = Vec::new();
    text.extend_from_slice(br#"{"name":""#);
    text.extend_from_slice("café".as_bytes());
    text.extend_from_slice(
        br#"","id":"test","bootNodes":[],"genesis":{"raw":{"top":{},"childrenDefault":{}}}}"#,
    );
    let d = ChainSpecDocument::decode(&text).unwrap();
    assert_eq!(d.name, "café".as_bytes().to_vec());
    let out = d.encode();
    let d2 = ChainSpecDocument::decode(&out).unwrap();
    assert_eq!(d2.name, "café".as_bytes().to_vec());
}

#[test]
fn surrogate_escapes() {
    // "😀" is one emoji; a lone high surrogate is rejected.
    let text = minimal_doc("").into_iter().collect::<Vec<u8>>();
    let good = String::from_utf8(text.clone())
        .unwrap()
        .replace(r#""name":"Test""#, r#""name":"😀""#);
    let d = ChainSpecDocument::decode(good.as_bytes()).unwrap();
    assert_eq!(d.name, "\u{1F600}".as_bytes().to_vec());

    let bad = String::from_utf8(text)
        .unwrap()
        .replace(r#""name":"Test""#, r#""name":"\uD83Dx""#);
    assert_eq!(
        ChainSpecDocument::decode(bad.as_bytes()).unwrap_err(),
        DecodeError::Format { field: Vec::new() }
    );
}
