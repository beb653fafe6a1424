use dual_judge::config::{substitute_casefile, FileTransferConfig};
use dual_judge::decode;
use dual_judge::lambda::{
    build_request, match_collected, pack_response, prepare_send, unpack_request, CollectedItem,
};

fn transfer(from: &str, to: &str) -> FileTransferConfig {
    FileTransferConfig { from: String::from(from), to: String::from(to) }
}

#[test]
fn substitution_replaces_marker() {
    assert_eq!(
        substitute_casefile("in/$casefile.txt", "cases/007"),
        "in/cases/007.txt"
    );
}

#[test]
fn substitution_without_marker() {
    assert_eq!(substitute_casefile("plain/path.txt", "cases/007"), "plain/path.txt");
}

#[test]
fn substitution_edge_shapes() {
    assert_eq!(substitute_casefile("$casefile", "x"), "x");
    assert_eq!(substitute_casefile("$casefile-$casefile", "ab"), "ab-ab");
    assert_eq!(substitute_casefile("", "x"), "");
    // A truncated marker is left as it stands.
    assert_eq!(substitute_casefile("$casefil", "x"), "$casefil");
}

#[test]
fn source_for_uses_the_from_template() {
    let t = transfer("$casefile", "input.txt");
    assert_eq!(t.source_for("cases/3.txt"), "cases/3.txt");
}

#[test]
fn prepared_send_carries_destination_and_payload() {
    let t = transfer("$casefile", "input.txt");
    let item = prepare_send(&t, b"case data").unwrap();
    assert_eq!(item.path, "input.txt");
    assert_eq!(decode(&item.data).unwrap(), b"case data".to_vec());
}

#[test]
fn request_mirrors_the_transfer_lists() {
    let send_specs = vec![transfer("$casefile", "input.txt"), transfer("tool.bin", "tool.bin")];
    let collect_specs = vec![transfer("start_out.txt", "out.txt"), transfer("start_err.txt", "err.txt")];
    let datas = vec![b"alpha".to_vec(), b"beta".to_vec()];
    let req = build_request(&send_specs, &collect_specs, &datas).unwrap();
    assert_eq!(req.send.len(), 2);
    assert_eq!(req.send[0].path, "input.txt");
    assert_eq!(req.send[1].path, "tool.bin");
    assert_eq!(req.collect, vec![String::from("start_out.txt"), String::from("start_err.txt")]);
    // The payloads decode back to the staged bytes: the request round trip.
    let unpacked = unpack_request(&req).unwrap();
    assert_eq!(unpacked.len(), 2);
    assert_eq!(unpacked[0].0, "input.txt");
    assert_eq!(unpacked[0].1, b"alpha".to_vec());
    assert_eq!(unpacked[1].1, b"beta".to_vec());
}

#[test]
fn unpack_rejects_a_corrupt_entry() {
    let send_specs = vec![transfer("a", "a")];
    let datas = vec![b"payload".to_vec()];
    let mut req = build_request(&send_specs, &vec![], &datas).unwrap();
    req.send[0].data = String::from("???");
    assert!(unpack_request(&req).is_err());
}

#[test]
fn collected_files_match_by_source_path() {
    let specs = vec![transfer("start_out.txt", "out.txt"), transfer("start_err.txt", "err.txt")];
    let item = CollectedItem { path: String::from("start_err.txt"), data: String::new() };
    assert_eq!(match_collected(&item, &specs), Some(String::from("err.txt")));
    let stranger = CollectedItem { path: String::from("other.txt"), data: String::new() };
    assert_eq!(match_collected(&stranger, &specs), None);
}

#[test]
fn collected_match_takes_the_first() {
    let specs = vec![transfer("f", "first.txt"), transfer("f", "second.txt")];
    let item = CollectedItem { path: String::from("f"), data: String::new() };
    assert_eq!(match_collected(&item, &specs), Some(String::from("first.txt")));
}

#[test]
fn response_packs_present_reads_only() {
    let reads = vec![
        (String::from("start_out.txt"), Some(b"stdout text".to_vec())),
        (String::from("missing.txt"), None),
        (String::from("start_err.txt"), Some(b"stderr text".to_vec())),
    ];
    let resp = pack_response(String::from("log line\n"), &reads);
    // The unreadable path is skipped and noted in the log, per path.
    assert_eq!(
        resp.message,
        "log line\n[AGENT] cannot collect missing.txt; going on\n"
    );
    assert_eq!(resp.collected.len(), 2);
    assert_eq!(resp.collected[0].path, "start_out.txt");
    assert_eq!(decode(&resp.collected[0].data).unwrap(), b"stdout text".to_vec());
    assert_eq!(resp.collected[1].path, "start_err.txt");
    assert_eq!(decode(&resp.collected[1].data).unwrap(), b"stderr text".to_vec());
}
