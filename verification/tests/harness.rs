use pathmap::arena_compact::{ACTVec, ArenaCompactTree};
use pathmap::harness::dec::Dec;
use pathmap::harness::header::decode_header;
use pathmap::harness::op::{decode_op, op_name, MAX_STEPS, NOPS};
use pathmap::harness::reply::{plan, show_answer, show_outcome, Facts, Plan, Reply};
use pathmap::harness::script::read_op;
use pathmap::harness::server::{
    escape_line, has_pairs, hex_decode, parse_command, terminator, Command, Outcome,
};
use pathmap::harness::session::{empty_trace, facts_of, Session};
use pathmap::harness::show::{
    hex_path, show_bool, show_byte_opt, show_status, show_status_opt, show_val, AlgebraicStatus,
};
use pathmap::harness::trace::{
    check_zipper, closing_lines, describe, dump, dump_entry, fingerprint, focus_node_empty,
    trace_line, Standing,
};
use pathmap::PathMap;

fn tree(items: &[(&[u8], u64)]) -> ACTVec {
    let mut map = PathMap::new();
    for (path, val) in items {
        map.insert(path, *val);
    }
    ArenaCompactTree::from_zipper(map.read_zipper(), |v: &u64| *v)
}

fn facts() -> Facts {
    Facts {
        write_at_root: false,
        read_at_root: false,
        write_children: 1,
        read_children: 1,
        write_val: false,
        pruneable: true,
        source: false,
    }
}

#[test]
fn numbers_and_paths_are_decoded() {
    let mut d = Dec { bytes: &[200, 9, 7, 2, 5, 6, 3], pos: 0 };
    assert_eq!(d.u8(), Some(200));
    assert_eq!(d.modn(4), Some(1));
    assert_eq!(d.path_byte(), Some(3));
    assert_eq!(d.path(6), Some(vec![1, 2]));
    assert_eq!(d.boolean(), Some(true));
    assert_eq!(d.u8(), None);
    assert_eq!(d.pos, 7);
    let mut d = Dec { bytes: &[3, 1, 1], pos: 0 };
    assert_eq!(d.path(6), None);
    assert_eq!(d.pos, 3);
    let mut d = Dec { bytes: &[3], pos: 0 };
    assert_eq!(d.path_n(0), Some(vec![]));
    assert_eq!(d.modn(0), Some(0));
}

#[test]
fn answers_are_shown() {
    assert_eq!(hex_path(&[]), "_");
    assert_eq!(hex_path(&[0, 0xab, 0x10]), "00ab10");
    assert_eq!(show_val(None), "-");
    assert_eq!(show_val(Some(&1203)), "1203");
    assert_eq!(show_bool(true), "1");
    assert_eq!(show_bool(false), "0");
    assert_eq!(show_byte_opt(None), "-");
    assert_eq!(show_byte_opt(Some(3)), "03");
    assert_eq!(show_status(AlgebraicStatus::Element), "Element");
    assert_eq!(show_status(AlgebraicStatus::Identity), "Identity");
    assert_eq!(show_status(AlgebraicStatus::Nothing), "None");
    assert_eq!(show_status_opt(None), "skip");
    assert_eq!(show_status_opt(Some(AlgebraicStatus::Element)), "Element");
}

#[test]
fn the_header_holds_two_maps_and_two_roots() {
    let bytes = [1, 2, 1, 2, 9, 2, 1, 1, 5, 3, 1, 0, 2, 22, 1, 3, 0, 77];
    let mut d = Dec { bytes: &bytes, pos: 0 };
    let (map0, map1, root0, root1) = decode_header(&mut d).unwrap();
    assert_eq!(map0.get_val_at(&[1, 2]), Some(&9));
    assert_eq!(map1.get_val_at(&[1]), Some(&5));
    assert_eq!(map1.get_val_at(&[1, 0, 2]), Some(&22));
    assert_eq!(root0, vec![3]);
    assert_eq!(root1, vec![]);
    assert_eq!(d.pos, 17);
    // The root was created without a value.
    let mut z = map0.read_zipper();
    z.descend_to(&[3]);
    assert!(z.path_exists());
    assert_eq!(map0.get_val_at(&[3]), None);
    let mut short = Dec { bytes: &bytes[..16], pos: 0 };
    assert!(decode_header(&mut short).is_none());
}

#[test]
fn operations_are_decoded_by_what_they_take() {
    assert_eq!(NOPS, 56);
    assert_eq!(MAX_STEPS, 256);
    let mut d = Dec { bytes: &[56, 3, 2, 5, 6], pos: 0 };
    let op = decode_op(&mut d).unwrap();
    assert_eq!((op.code, op.target, op.path), (0, 1, vec![1, 2]));
    let mut d = Dec { bytes: &[33, 2, 7, 5, 1], pos: 0 };
    let op = decode_op(&mut d).unwrap();
    assert_eq!((op.code, op.mask, op.flag), (33, vec![3, 1], true));
    let mut d = Dec { bytes: &[46, 7, 0, 34], pos: 0 };
    let op = decode_op(&mut d).unwrap();
    assert_eq!((op.code, op.number, op.flag), (46, 3, false));
    assert_eq!(decode_op(&mut d).unwrap().code, 34);
    assert!(decode_op(&mut d).is_none());
    let mut d = Dec { bytes: &[27], pos: 0 };
    assert!(decode_op(&mut d).is_none());
    assert_eq!(op_name(16), "k_path_walk");
    assert_eq!(op_name(47), "descend_until_observed");
    assert_eq!(op_name(55), "meet_2");
    assert_eq!(op_name(99), "nop");
}

fn op_of(bytes: &[u8]) -> pathmap::harness::op::Op {
    decode_op(&mut Dec { bytes, pos: 0 }).unwrap()
}

#[test]
fn plans_follow_the_facts() {
    assert_eq!(plan(&op_of(&[0, 0, 0]), facts()), Plan::Write);
    assert_eq!(plan(&op_of(&[0, 1, 0]), facts()), Plan::Read);
    assert_eq!(plan(&op_of(&[14, 0]), facts()), Plan::Read);
    assert_eq!(plan(&op_of(&[15, 0, 4]), facts()), Plan::Skip);
    assert_eq!(plan(&op_of(&[11, 1]), facts()), Plan::Read);
    assert_eq!(plan(&op_of(&[11, 1]), Facts { read_at_root: true, ..facts() }), Plan::Skip);
    assert_eq!(plan(&op_of(&[12, 0]), Facts { write_at_root: true, ..facts() }), Plan::Skip);
    assert_eq!(plan(&op_of(&[25, 1]), facts()), Plan::Skip);
    assert_eq!(plan(&op_of(&[25, 0]), facts()), Plan::Write);
    assert_eq!(plan(&op_of(&[30]), facts()), Plan::Write);
    assert_eq!(plan(&op_of(&[31]), Facts { pruneable: false, ..facts() }), Plan::Skip);
    assert_eq!(plan(&op_of(&[34]), facts()), Plan::Skip);
    assert_eq!(plan(&op_of(&[34]), Facts { source: true, ..facts() }), Plan::Write);
    assert_eq!(plan(&op_of(&[41]), Facts { source: true, ..facts() }), Plan::Write);
    assert_eq!(
        plan(&op_of(&[41]), Facts { source: true, read_children: 0, ..facts() }),
        Plan::Skip
    );
    assert_eq!(plan(&op_of(&[43, 0]), facts()), Plan::Skip);
    assert_eq!(plan(&op_of(&[46, 1, 0]), Facts { write_children: 0, ..facts() }), Plan::Skip);
    assert_eq!(plan(&op_of(&[54, 0, 0]), facts()), Plan::Skip);
}

#[test]
fn outcomes_are_shown() {
    let op = op_of(&[33, 3, 3, 1, 3, 0]);
    assert_eq!(show_answer(&op, &Reply::Done), "0103");
    let op = op_of(&[53, 1, 2, 1]);
    assert_eq!(show_answer(&op, &Reply::Done), "02:1");
    let op = op_of(&[50, 7]);
    assert_eq!(show_answer(&op, &Reply::Made(7, true)), "7:1");
    let op = op_of(&[36]);
    assert_eq!(show_outcome(&op, facts(), 1, &None), "skip");
    assert_eq!(
        show_outcome(&op, facts(), 1, &Some(Reply::Status(AlgebraicStatus::Identity))),
        "Identity"
    );
    let op = op_of(&[32, 0]);
    let empty = Facts { write_children: 0, ..facts() };
    assert_eq!(show_outcome(&op, facts(), 1, &Some(Reply::Bool(true))), "1");
    assert_eq!(show_outcome(&op, empty, 1, &Some(Reply::Bool(true))), "?");
    let op = op_of(&[42, 1, 0]);
    assert_eq!(show_outcome(&op, facts(), 0, &Some(Reply::Bool(true))), "?");
    let op = op_of(&[45, 1]);
    assert_eq!(show_outcome(&op, Facts { write_val: true, ..empty }, 0, &Some(Reply::Bool(true))), "1");
    assert_eq!(show_answer(&op, &Reply::Next(true, Some(4), false)), "1:4:0");
    assert_eq!(show_answer(&op, &Reply::Byte(Some(255))), "ff");
    assert_eq!(show_answer(&op, &Reply::Number(40)), "40");
    assert_eq!(show_answer(&op, &Reply::Val(None)), "-");
}

#[test]
fn reads_are_carried_out() {
    let t = tree(&[(&[], 38), (&[1], 5), (&[1, 0, 2], 22), (&[3], 7)]);
    let mut z = t.read_zipper_u64();
    let mut run = |bytes: &[u8]| {
        let op = op_of(bytes);
        let reply = read_op(&mut z, &op);
        show_outcome(&op, facts(), 1, &reply)
    };
    assert_eq!(run(&[26, 1]), "_:38,01:5,0100:-,010002:22,03:7");
    assert_eq!(run(&[5, 1]), "01");
    assert_eq!(run(&[47, 1]), "1:0002");
    assert_eq!(run(&[51, 1, 0]), "22:22:1");
    assert_eq!(run(&[2, 1, 7]), "3");
    assert_eq!(run(&[16, 1, 1]), "01,03");
    assert_eq!(run(&[15, 1, 3]), "1");
    assert_eq!(run(&[9, 1]), "2");
    assert_eq!(run(&[11, 1]), "03");
    assert_eq!(run(&[12, 1]), "01");
    assert_eq!(run(&[24, 1, 2, 0, 2]), "22");
    assert_eq!(run(&[19, 1, 3, 0, 1, 1]), "1");
    assert_eq!(run(&[18, 1, 1, 3]), "0");
    assert_eq!(run(&[13, 1]), "0");
    assert_eq!(run(&[14, 1]), "1");
    assert_eq!(run(&[17, 1]), "1");
    assert_eq!(run(&[3, 1]), "1");
    assert_eq!(run(&[21, 1, 1]), "0");
    assert_eq!(run(&[4, 1]), "-");
    assert_eq!(run(&[7, 1, 1]), "03");
    assert_eq!(run(&[23, 1, 1, 0]), "0");
    assert_eq!(run(&[10, 1]), "2");
    assert_eq!(run(&[8, 1]), "0");
    assert_eq!(run(&[20, 1, 3, 1, 0, 2]), "1");
    assert_eq!(run(&[22, 1, 1]), "1");
    assert_eq!(run(&[6, 1]), "02");
    assert_eq!(run(&[1, 1, 3]), "03");
    assert_eq!(run(&[0, 1, 1, 1]), "01");
    assert_eq!(run(&[25, 1]), "skip");
    assert_eq!(run(&[52]), "skip");
    assert_eq!(z.path(), &[1, 0, 2, 3, 1]);
}

#[test]
fn fingerprints_tell_where_a_zipper_is() {
    let t = tree(&[(&[1], 5), (&[1, 0, 2], 22), (&[3], 7)]);
    let mut z = t.read_zipper_at_path_u64(&[1]);
    assert_eq!(fingerprint(&z, &[1]), "_ o01 e1 v5 c1 n2 f?");
    assert!(check_zipper(&z, &[1]));
    assert!(!check_zipper(&z, &[]));
    z.descend_to(&[0, 2]);
    assert_eq!(fingerprint(&z, &[1]), "0002 o010002 e1 v22 c0 n1 f02");
    assert!(focus_node_empty(&z));
    z.descend_to(&[9]);
    assert_eq!(fingerprint(&z, &[3]), "ESCAPED-ROOT 000209 o01000209 e0 v- c0 n0 f09");
    assert!(check_zipper(&z, &[1]));
    assert_eq!(dump(&mut z), "_:5,00:-,0002:22");
    assert_eq!(z.path(), &[]);
    assert_eq!(dump_entry(&[4], None), "04:-");
    assert_eq!(describe(false, &[], &[], true, None, 3, 12, None), "_ o_ e1 v- c3 n12 f?");
}

#[test]
fn long_dumps_are_cut() {
    let items: Vec<(Vec<u8>, u64)> = (0..100u8).map(|b| (vec![b], b as u64)).collect();
    let items: Vec<(&[u8], u64)> = items.iter().map(|(p, v)| (&p[..], *v)).collect();
    let t = tree(&items);
    let mut z = t.read_zipper_u64();
    let text = dump(&mut z);
    assert_eq!(text.split(',').count(), 64);
    assert!(text.starts_with("_:-,00:0,01:1,"));
    assert!(text.ends_with(",3e:62"));
}

#[test]
fn a_session_tells_of_each_step() {
    // Two empty maps but for [1] = 5 in the second, and no roots.
    let mut bytes = vec![0, 1, 1, 1, 5, 0, 0];
    bytes.extend([5, 1]); // descend_first_byte on the zipper that reads
    bytes.extend([34]); // graft, which such a zipper cannot serve
    bytes.extend([0, 1]); // not a whole operation
    let mut d = Dec { bytes: &bytes, pos: 0 };
    let (_, map1, root0, root1) = decode_header(&mut d).unwrap();
    let act = ArenaCompactTree::from_zipper(map1.read_zipper(), |v: &u64| *v);
    let mut z = act.read_zipper_at_path_u64(&root1);
    let mut session = Session::new(d);
    while let Some(op) = session.next_op() {
        let before = facts_of(&z, true, 0, false, true);
        let reply = match plan(&op, before) {
            Plan::Read => read_op(&mut z, &op),
            _ => None,
        };
        let r = fingerprint(&z, &root1);
        session.record(&op, before, 0, &reply, "w", &r);
    }
    let map1 = dump(&mut act.read_zipper_u64());
    assert_eq!(
        session.finish("_:-", &map1, &root0, &root1),
        "0 descend_first_byte ret=01 W=w R=01 o01 e1 v5 c0 n1 f01\n\
         1 graft ret=skip W=w R=01 o01 e1 v5 c0 n1 f01\n\
         MAP0 _:-\nMAP1 _:-,01:5\nROOT0 _\nROOT1 _\n"
    );
    assert_eq!(empty_trace(), "EMPTY\n");
}

#[test]
fn a_session_ends_after_enough_steps() {
    let bytes = [54u8, 0, 0].repeat(300);
    let mut session = Session::new(Dec { bytes: &bytes, pos: 0 });
    let mut count = 0;
    while let Some(op) = session.next_op() {
        session.record(&op, facts(), 1, &None, "", "");
        count += 1;
    }
    assert_eq!(count, MAX_STEPS);
}

#[test]
fn lines_are_put_together() {
    assert_eq!(trace_line(12, 4, "-", "a", "b"), "12 reset ret=- W=a R=b\n");
    assert_eq!(closing_lines("x", "y", &[1], &[]), "MAP0 x\nMAP1 y\nROOT0 01\nROOT1 _\n");
}

#[test]
fn messages_become_one_line() {
    assert_eq!(escape_line("a\\b\nc\rd"), "a\\\\b\\nc\\rd");
    assert_eq!(escape_line(""), "");
    assert_ne!(escape_line("\n"), escape_line("\\n"));
}

#[test]
fn hexadecimal_text_is_decoded() {
    assert_eq!(hex_decode(""), Some(vec![]));
    assert_eq!(hex_decode("00fFaB"), Some(vec![0, 0xff, 0xab]));
    assert_eq!(hex_decode("0"), None);
    assert_eq!(hex_decode("0g"), None);
    assert_eq!(hex_decode("+f"), Some(vec![15]));
    assert_eq!(hex_decode("f+"), None);
    assert!(has_pairs("00é"));
    assert!(!has_pairs("0éé1"));
    assert_eq!(hex_decode("00é"), None);
}

#[test]
fn hexadecimal_text_gives_the_bytes_back() {
    let bytes: Vec<u8> = (0..=255).collect();
    assert_eq!(hex_decode(&hex_path(&bytes)), Some(bytes));
}

#[test]
fn commands_are_parsed() {
    assert!(matches!(parse_command("quit"), Command::Quit));
    assert!(matches!(parse_command("quit now"), Command::Unknown));
    assert!(matches!(parse_command(""), Command::Unknown));
    assert!(matches!(parse_command("run-input"), Command::Unknown));
    match parse_command("run-input 250 00ff") {
        Command::RunInput { ms, hex } => assert_eq!((ms, hex), (250, b"00ff".to_vec())),
        _ => panic!("not understood"),
    }
    match parse_command("run-input x") {
        Command::RunInput { ms, hex } => assert_eq!((ms, hex), (0, vec![])),
        _ => panic!("not understood"),
    }
    match parse_command("run-input +18446744073709551615 a b") {
        Command::RunInput { ms, hex } => assert_eq!((ms, hex), (u64::MAX, b"a b".to_vec())),
        _ => panic!("not understood"),
    }
    match parse_command("run-input 18446744073709551616 a") {
        Command::RunInput { ms, .. } => assert_eq!(ms, 0),
        _ => panic!("not understood"),
    }
}

#[test]
fn answers_have_an_end() {
    assert_eq!(terminator(&Outcome::Done), "!DONE");
    assert_eq!(terminator(&Outcome::Timeout), "!TIMEOUT");
    assert_eq!(terminator(&Outcome::Panic("a\nb".to_string())), "!PANIC a\\nb");
    assert_eq!(terminator(&Outcome::BadHex), "!PANIC bad hex in run-input");
    assert_eq!(
        terminator(&Outcome::UnknownCommand("x".to_string())),
        "!PANIC unknown command: x"
    );
}

#[test]
fn what_is_cut_off_uses_up_all_bytes() {
    // A path of five letters of which two are there.
    let mut d = Dec { bytes: &[0, 0, 5, 1, 2], pos: 0 };
    assert!(decode_op(&mut d).is_none());
    assert_eq!(d.pos, 5);
    let mut d = Dec { bytes: &[0, 1, 3, 2], pos: 0 };
    assert!(decode_header(&mut d).is_none());
    assert_eq!(d.pos, 4);
    let mut d = Dec { bytes: &[1], pos: 3 };
    assert!(decode_op(&mut d).is_none());
    assert_eq!(d.pos, 3);
}

#[test]
fn what_zippers_tell_is_checked() {
    fn sound() -> Standing<'static> {
        Standing {
            at_root: false,
            path: &[2, 3],
            origin_path: &[1, 2, 3],
            root_prefix_path: &[1],
            focus_byte: Some(3),
            path_exists: true,
            is_val: true,
            child_count: 2,
            listed: 2,
            val_count: 3,
        }
    }
    assert!(sound().check(&[1]));
    assert!(!sound().check(&[]));
    assert!(!Standing { at_root: true, ..sound() }.check(&[1]));
    assert!(!Standing { origin_path: &[2, 3], ..sound() }.check(&[1]));
    assert!(!Standing { focus_byte: Some(2), ..sound() }.check(&[1]));
    assert!(!Standing { focus_byte: None, ..sound() }.check(&[1]));
    assert!(!Standing { path_exists: false, ..sound() }.check(&[1]));
    assert!(!Standing { path_exists: false, is_val: false, ..sound() }.check(&[1]));
    assert!(!Standing { listed: 1, ..sound() }.check(&[1]));
    assert!(!Standing { val_count: 0, ..sound() }.check(&[1]));
    assert!(!Standing { child_count: 0, listed: 0, ..sound() }.check(&[1]));
    assert!(Standing { child_count: 0, listed: 0, val_count: 1, ..sound() }.check(&[1]));
}
