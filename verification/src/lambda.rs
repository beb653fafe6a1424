use vstd::prelude::*;

use crate::b64_of;
use crate::config::FileTransferConfig;
use crate::decode;
use crate::deflate_of;
use crate::encodable;
use crate::encode;
use crate::CodecError;

verus! {

/// One file carried to the remote side: its destination path and its
/// encoded contents.
#[derive(Debug, Clone, PartialEq)]
pub struct SendItem {
    pub path: String,
    pub data: String,
}

/// One remote invocation's input: the files to materialize, in order, and
/// the paths to collect afterwards.
#[derive(Debug, Clone, PartialEq)]
pub struct Request {
    pub send: Vec<SendItem>,
    pub collect: Vec<String>,
}

/// One file carried back from the remote side: its path and its encoded
/// contents.
#[derive(Debug, Clone, PartialEq)]
pub struct CollectedItem {
    pub path: String,
    pub data: String,
}

/// One remote invocation's output: the diagnostic log and the collected
/// files, one entry per path that could be read and encoded.
#[derive(Debug, Clone, PartialEq)]
pub struct Response {
    pub message: String,
    pub collected: Vec<CollectedItem>,
}

/// One send entry: the transfer's destination path together with the file's
/// bytes encoded for transport. Succeeds exactly when the compressed bytes
/// fit the encoder's machine limit.
pub fn prepare_send(t: &FileTransferConfig, data: &[u8]) -> (r: Result<SendItem, CodecError>)
    ensures
        (r is Ok) == encodable(data@),
        r is Ok ==> r->Ok_0.path@ == t.to@ && r->Ok_0.data@ == b64_of(deflate_of(data@)),
        r is Err ==> r->Err_0 == CodecError::Compress,
{
    let encoded = match encode(data) {
        Ok(s) => s,
        Err(e) => return Err(e),
    };
    Ok(SendItem { path: t.to.clone(), data: encoded })
}

/// The whole remote request for one case: every staged file encoded under
/// its destination path, in the order of the send transfers, and the
/// collect list mirroring the collect transfers' source paths. An encoding
/// failure for any file aborts the whole request, so the request succeeds
/// exactly when every staged file's compressed bytes fit the machine limit.
pub fn build_request(
    send_specs: &Vec<FileTransferConfig>,
    collect_specs: &Vec<FileTransferConfig>,
    datas: &Vec<Vec<u8>>,
) -> (r: Result<Request, CodecError>)
    requires
        datas@.len() == send_specs@.len(),
    ensures
        (r is Ok) == (forall|i: int| 0 <= i < datas@.len() ==> encodable(#[trigger] datas@[i]@)),
        r is Err ==> r->Err_0 == CodecError::Compress,
        r is Ok ==> r->Ok_0.send@.len() == send_specs@.len() && (forall|i: int|
            0 <= i < send_specs@.len() ==> r->Ok_0.send@[i].path@ == send_specs@[i].to@
                && r->Ok_0.send@[i].data@ == b64_of(deflate_of(datas@[i]@))),
        r is Ok ==> r->Ok_0.collect@.len() == collect_specs@.len() && (forall|i: int|
            0 <= i < collect_specs@.len() ==> r->Ok_0.collect@[i]@ == collect_specs@[i].from@),
{
    let mut send: Vec<SendItem> = Vec::new();
    let mut i: usize = 0;
    while i < send_specs.len()
        invariant
            i <= send_specs@.len(),
            datas@.len() == send_specs@.len(),
            send@.len() == i,
            forall|k: int| 0 <= k < i ==> encodable(#[trigger] datas@[k]@),
            forall|k: int|
                0 <= k < i ==> send@[k].path@ == send_specs@[k].to@ && send@[k].data@ == b64_of(
                    deflate_of(datas@[k]@),
                ),
        decreases send_specs@.len() - i,
    {
        let item = match prepare_send(&send_specs[i], datas[i].as_slice()) {
            Ok(it) => it,
            Err(e) => {
                proof {
                    assert(!encodable(datas@[i as int]@));
                }
                return Err(e);
            },
        };
        send.push(item);
        i += 1;
    }
    let mut collect: Vec<String> = Vec::new();
    let mut j: usize = 0;
    while j < collect_specs.len()
        invariant
            j <= collect_specs@.len(),
            collect@.len() == j,
            forall|k: int| 0 <= k < j ==> collect@[k]@ == collect_specs@[k].from@,
        decreases collect_specs@.len() - j,
    {
        collect.push(collect_specs[j].from.clone());
        j += 1;
    }
    Ok(Request { send, collect })
}

/// The first collect transfer whose source path is the given one.
pub open spec fn first_from_match(specs: Seq<FileTransferConfig>, path: Seq<char>) -> Option<int>
    decreases specs.len(),
{
    if specs.len() == 0 {
        None
    } else if specs.first().from@ == path {
        Some(0)
    } else {
        match first_from_match(specs.drop_first(), path) {
            Some(j) => Some(j + 1),
            None => None,
        }
    }
}

/// Law: `first_from_match` finds exactly the first transfer whose source
/// is the path — every transfer before it names another path — and finds
/// nothing only when no transfer names the path.
pub proof fn lemma_first_from_match(specs: Seq<FileTransferConfig>, path: Seq<char>)
    ensures
        first_from_match(specs, path) matches Some(i) ==> 0 <= i < specs.len()
            && specs[i].from@ == path && (forall|k: int| 0 <= k < i ==> specs[k].from@ != path),
        first_from_match(specs, path) is None ==> forall|k: int|
            0 <= k < specs.len() ==> specs[k].from@ != path,
    decreases specs.len(),
{
    if specs.len() > 0 && specs.first().from@ != path {
        lemma_first_from_match(specs.drop_first(), path);
        assert(forall|k: int| 1 <= k < specs.len() ==> specs[k] == specs.drop_first()[k - 1]);
    }
}

/// The destination path a collected file is saved under: the `to` of the
/// first collect transfer whose `from` is the collected path; nothing when
/// no transfer names it.
pub fn match_collected(item: &CollectedItem, collect_specs: &Vec<FileTransferConfig>) -> (r:
    Option<String>)
    ensures
        (r is Some) == (first_from_match(collect_specs@, item.path@) is Some),
        r is Some ==> r->0@ == collect_specs@[first_from_match(collect_specs@, item.path@)->0].to@,
{
    let mut i: usize = 0;
    proof {
        assert(collect_specs@.skip(0) =~= collect_specs@);
    }
    while i < collect_specs.len()
        invariant
            i <= collect_specs@.len(),
            forall|k: int| 0 <= k < i ==> collect_specs@[k].from@ != item.path@,
            first_from_match(collect_specs@.skip(i as int), item.path@) matches Some(j)
                ==> first_from_match(collect_specs@, item.path@) == Some(j + i),
            first_from_match(collect_specs@.skip(i as int), item.path@) is None
                ==> first_from_match(collect_specs@, item.path@) is None,
        decreases collect_specs@.len() - i,
    {
        proof {
            assert(collect_specs@.skip(i as int).first() == collect_specs@[i as int]);
            assert(collect_specs@.skip(i as int).drop_first() =~= collect_specs@.skip(i + 1));
        }
        if collect_specs[i].from == item.path {
            return Some(collect_specs[i].to.clone());
        }
        i += 1;
    }
    proof {
        assert(collect_specs@.skip(collect_specs@.len() as int) =~= Seq::<
            FileTransferConfig,
        >::empty());
    }
    None
}

/// Materializes a request's send list: every entry's payload decoded back
/// to bytes under its path, in order; a single failure aborts the whole
/// request, so a request whose every payload is validly encoded is owed
/// success.
pub fn unpack_request(req: &Request) -> (r: Result<Vec<(String, Vec<u8>)>, CodecError>)
    ensures
        (forall|i: int| #![trigger req.send@[i]]
            0 <= i < req.send@.len() ==> exists|orig: Seq<u8>|
                req.send@[i].data@ == b64_of(deflate_of(orig))) ==> r is Ok,
        r is Ok ==> r->Ok_0@.len() == req.send@.len(),
        r is Ok ==> forall|i: int|
            0 <= i < req.send@.len() ==> (#[trigger] r->Ok_0@[i]).0@ == req.send@[i].path@,
        r is Ok ==> forall|i: int, orig: Seq<u8>|
            #![trigger r->Ok_0@[i], deflate_of(orig)]
            0 <= i < req.send@.len() && req.send@[i].data@ == b64_of(deflate_of(orig))
                ==> r->Ok_0@[i].1@ == orig,
{
    let mut out: Vec<(String, Vec<u8>)> = Vec::new();
    let mut i: usize = 0;
    while i < req.send.len()
        invariant
            i <= req.send@.len(),
            out@.len() == i,
            forall|k: int| 0 <= k < i ==> (#[trigger] out@[k]).0@ == req.send@[k].path@,
            forall|k: int, orig: Seq<u8>|
                #![trigger out@[k], deflate_of(orig)]
                0 <= k < i && req.send@[k].data@ == b64_of(deflate_of(orig))
                    ==> out@[k].1@ == orig,
        decreases req.send@.len() - i,
    {
        let bytes = match decode(req.send[i].data.as_str()) {
            Ok(b) => b,
            Err(e) => return Err(e),
        };
        out.push((req.send[i].path.clone(), bytes));
        i += 1;
    }
    Ok(out)
}

/// The collected entry carries read `j`'s path and the exact transport
/// text of its bytes.
pub open spec fn packs_read(
    reads: Seq<(String, Option<Vec<u8>>)>,
    it: CollectedItem,
    j: int,
) -> bool {
    &&& 0 <= j < reads.len()
    &&& it.path@ == reads[j].0@
    &&& reads[j].1 is Some
    &&& it.data@ == b64_of(deflate_of(reads[j].1->0@))
}

/// Some position of the index map points at read `j`.
pub open spec fn maps_to(m: Seq<int>, j: int) -> bool {
    exists|k: int| 0 <= k < m.len() && m[k] == j
}

/// The collected list is exactly the present, machine-encodable reads, in
/// reads order: the index map `m` ties each entry to its source read and is
/// strictly increasing — so the list is an in-order subsequence with one
/// entry per covered read — every entry carries its read's path and exact
/// encoding, and every read whose bytes are present and whose compressed
/// stream fits the encoder's machine limit is covered.
pub open spec fn packed_exactly(
    reads: Seq<(String, Option<Vec<u8>>)>,
    collected: Seq<CollectedItem>,
    m: Seq<int>,
) -> bool {
    &&& m.len() == collected.len()
    &&& forall|k: int| 0 < k < m.len() ==> m[k - 1] < #[trigger] m[k]
    &&& forall|k: int| 0 <= k < m.len() ==> packs_read(reads, collected[k], #[trigger] m[k])
    &&& forall|j: int|
        0 <= j < reads.len() && (#[trigger] reads[j]).1 is Some && encodable(reads[j].1->0@)
            ==> maps_to(m, j)
}

/// The log note for a requested path that could not be collected.
pub open spec fn skip_note(path: Seq<char>) -> Seq<char> {
    "[AGENT] cannot collect "@ + path + "; going on\n"@
}

/// The log notes for every read that is absent or not machine-encodable,
/// in reads order.
pub open spec fn skip_notes(reads: Seq<(String, Option<Vec<u8>>)>) -> Seq<char>
    decreases reads.len(),
{
    if reads.len() == 0 {
        Seq::empty()
    } else {
        skip_notes(reads.drop_last()) + (if reads.last().1 is Some && encodable(
            reads.last().1->0@,
        ) {
            Seq::<char>::empty()
        } else {
            skip_note(reads.last().0@)
        })
    }
}

/// A read the map covers stays covered when the map grows.
proof fn lemma_maps_to_push(m: Seq<int>, x: int, j: int)
    requires
        maps_to(m, j),
    ensures
        maps_to(m.push(x), j),
{
    let k = choose|k: int| 0 <= k < m.len() && m[k] == j;
    assert(0 <= k < m.push(x).len() && m.push(x)[k] == j);
}

/// Packs the remote side's answer: the diagnostic log, and one collected
/// entry per requested file whose bytes are present and encodable, in
/// request order, each carrying the exact transport text of that file's
/// bytes, as witnessed by an index map from entries to reads; a file that
/// could not be read or encoded is skipped, with a note per skipped path
/// appended to the log.
pub fn pack_response(message: String, reads: &Vec<(String, Option<Vec<u8>>)>) -> (r: Response)
    ensures
        r.message@ == message@ + skip_notes(reads@),
        exists|m: Seq<int>| packed_exactly(reads@, r.collected@, m),
{
    let mut msg = message;
    let ghost msg0 = msg@;
    let mut collected: Vec<CollectedItem> = Vec::new();
    let ghost mut srcs: Seq<int> = Seq::empty();
    let mut i: usize = 0;
    proof {
        assert(reads@.take(0) =~= Seq::<(String, Option<Vec<u8>>)>::empty());
        assert(msg@ =~= msg0 + skip_notes(reads@.take(0)));
    }
    while i < reads.len()
        invariant
            i <= reads@.len(),
            srcs.len() == collected@.len(),
            msg@ == msg0 + skip_notes(reads@.take(i as int)),
            forall|k: int| 0 <= k < srcs.len() ==> 0 <= #[trigger] srcs[k] < i,
            forall|k: int| 0 < k < srcs.len() ==> srcs[k - 1] < #[trigger] srcs[k],
            forall|k: int|
                0 <= k < srcs.len() ==> packs_read(reads@, collected@[k], #[trigger] srcs[k]),
            forall|j: int|
                0 <= j < i && (#[trigger] reads@[j]).1 is Some && encodable(reads@[j].1->0@)
                    ==> maps_to(srcs, j),
        decreases reads@.len() - i,
    {
        let ghost old_srcs = srcs;
        let mut pushed = false;
        match &reads[i].1 {
            Some(bytes) => {
                match encode(bytes.as_slice()) {
                    Ok(text) => {
                        collected.push(CollectedItem { path: reads[i].0.clone(), data: text });
                        proof {
                            srcs = srcs.push(i as int);
                        }
                        pushed = true;
                        proof {
                            let k = srcs.len() - 1;
                            assert(packs_read(reads@, collected@[k as int], i as int));
                        }
                    },
                    Err(_) => {
                        proof {
                            assert(!encodable(reads@[i as int].1->0@));
                        }
                        append_skip_note(&mut msg, &reads[i].0);
                    },
                }
            },
            None => {
                append_skip_note(&mut msg, &reads[i].0);
            },
        }
        proof {
            assert(reads@.take(i + 1).drop_last() =~= reads@.take(i as int));
            assert(reads@.take(i + 1).last() == reads@[i as int]);
            if reads@[i as int].1 is Some && encodable(reads@[i as int].1->0@) {
                assert(skip_notes(reads@.take(i + 1)) =~= skip_notes(reads@.take(i as int)));
            }
            assert(msg@ =~= msg0 + skip_notes(reads@.take(i + 1)));
        }
        proof {
            assert forall|j: int|
                0 <= j < i + 1 && (#[trigger] reads@[j]).1 is Some && encodable(
                    reads@[j].1->0@,
                ) implies maps_to(srcs, j) by {
                if j < i {
                    if pushed {
                        lemma_maps_to_push(old_srcs, i as int, j);
                    }
                } else {
                    let k = srcs.len() - 1;
                    assert(0 <= k < srcs.len() && srcs[k] == j);
                }
            }
        }
        i += 1;
    }
    proof {
        assert(reads@.take(reads@.len() as int) =~= reads@);
    }
    let resp = Response { message: msg, collected };
    proof {
        assert(packed_exactly(reads@, resp.collected@, srcs));
    }
    resp
}

/// Appends the note for one path that could not be collected.
fn append_skip_note(msg: &mut String, path: &String)
    ensures
        final(msg)@ == old(msg)@ + skip_note(path@),
{
    proof {
        reveal_strlit("[AGENT] cannot collect ");
        reveal_strlit("; going on\n");
    }
    msg.append("[AGENT] cannot collect ");
    msg.append(path.as_str());
    msg.append("; going on\n");
    proof {
        assert(final(msg)@ =~= old(msg)@ + skip_note(path@));
    }
}

} // verus!
