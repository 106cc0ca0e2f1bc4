//! The control channel: the request that offers files, and the response
//! that says which of them the receiver will take.
//!
//! A request is the line `FILES <n>` and then one line `<name> <size>` for
//! each file. A response is the line `ACCEPT` and then one line for each
//! accepted name, or the line `REJECT`.

use crate::common::counter::get_inc;
use crate::common::counter::all_below;
use crate::common::counter::lemma_below_is_unused;
use crate::common::counter::lemma_next_key_is_new;
use crate::common::counter::lemma_keys_stay_below;
use crate::common::counter::nth_id;
use crate::common::counter::unused;
use crate::common::counter::IdGenerator;
use crate::common::text::bytes_eq;
use crate::common::text::copy_range;
use crate::common::text::decimal;
use crate::common::text::find_last;
use crate::common::text::is_digit;
use crate::common::registry::lemma_tracks_len;
use crate::common::text::are_lines;
use crate::common::text::is_ended;
use crate::common::text::is_line;
use crate::common::text::is_one_line;
use crate::common::text::lemma_decimal_digits;
use crate::common::text::lemma_decimal_round_trip;
use crate::common::text::lemma_find_first;
use crate::common::text::lemma_find_last_is;
use crate::common::text::lemma_lines_concat;
use crate::common::text::lemma_lines_len;
use crate::common::text::lemma_lines_of_one;
use crate::common::text::strip_cr;
use crate::common::text::CARRIAGE_RETURN;
use crate::common::text::last_index_of;
use crate::common::text::lines;
use crate::common::text::parse_u64;
use crate::common::text::parse_unsigned;
use crate::common::text::push_bytes;
use crate::common::text::push_decimal;
use crate::common::text::split_lines;
use crate::common::text::trim;
use crate::common::text::trim_bytes;
use crate::common::text::views;
use crate::common::text::NEWLINE;
use crate::common::text::SPACE;
use crate::common::transfer_state::Records;
use crate::common::transfer_state::TransferRegistry;
use crate::common::transfer_state::TransferState;
use crate::common::transfer_state::TransferStateView;
use crate::common::transfer_state::TransferType;
use crate::networking::ledger::after_promises;
use crate::networking::ledger::Ledger;
use crate::networking::ledger::Promises;
use crate::networking::offers::OfferRegistry;
use crate::networking::offers::RequestData;
use crate::networking::offers::RequestDataView;
use crate::networking::peers::PeerAddr;
use crate::networking::peers::PeerAddrView;
use crate::networking::peers::PingResponse;
use vstd::prelude::*;
use vstd::slice::slice_subrange;

verus! {

/// The port on which a peer listens for control connections.
pub const CONTROL_PORT: u16 = 24934;

/// The size of the buffer into which a request is read. What a request
/// holds beyond it is lost.
pub const REQUEST_BUFFER_SIZE: usize = 1024;

/// The time in milliseconds between two looks at a registry while waiting.
pub const POLL_INTERVAL_MS: u64 = 100;

/// The word `FILES`.
pub open spec fn files_word() -> Seq<u8> {
    seq![70u8, 73u8, 76u8, 69u8, 83u8]
}

/// The word `ACCEPT`.
pub open spec fn accept_word() -> Seq<u8> {
    seq![65u8, 67u8, 67u8, 69u8, 80u8, 84u8]
}

/// The word `REJECT`.
pub open spec fn reject_word() -> Seq<u8> {
    seq![82u8, 69u8, 74u8, 69u8, 67u8, 84u8]
}

/// A list of files as a request names them: base name and size in bytes.
pub open spec fn files_view(files: Seq<(Vec<u8>, u64)>) -> Seq<(Seq<u8>, u64)> {
    files.map_values(|file: (Vec<u8>, u64)| (file.0@, file.1))
}

/// The line that offers one file.
pub open spec fn entry_line(file: (Seq<u8>, u64)) -> Seq<u8> {
    file.0 + seq![SPACE] + decimal(file.1 as nat)
}

/// The lines that offer `files`, each but the last ended by a line feed.
pub open spec fn entry_lines(files: Seq<(Seq<u8>, u64)>) -> Seq<u8>
    decreases files.len(),
{
    if files.len() == 0 {
        Seq::empty()
    } else if files.len() == 1 {
        entry_line(files[0])
    } else {
        entry_lines(files.drop_last()) + seq![NEWLINE] + entry_line(files.last())
    }
}

/// The request that announces `count` files and lists `files`.
pub open spec fn request_announcing(count: nat, files: Seq<(Seq<u8>, u64)>) -> Seq<u8> {
    files_word() + seq![SPACE] + decimal(count) + seq![NEWLINE] + entry_lines(files) + seq![
        NEWLINE,
    ]
}

/// The request that offers `files`.
pub open spec fn request_text(files: Seq<(Seq<u8>, u64)>) -> Seq<u8> {
    request_announcing(files.len(), files)
}

/// What the receiver's buffer holds of a request: the bytes received, cut
/// off at the buffer's size.
pub open spec fn request_buffer(received: Seq<u8>) -> Seq<u8> {
    if received.len() >= REQUEST_BUFFER_SIZE {
        received.take(REQUEST_BUFFER_SIZE as int)
    } else {
        received
    }
}

/// The number that a field spells, or zero where it spells none.
pub open spec fn number_or_zero(field: Seq<u8>) -> u64 {
    match parse_unsigned(field) {
        Some(n) => n,
        None => 0,
    }
}

/// The number of files that a header line announces: what follows the word
/// `FILES` and one more byte, white space at its ends aside. A line that
/// does not begin with `FILES`, or announces no number, announces no files.
pub open spec fn announced(header: Seq<u8>) -> u64 {
    if files_word().is_prefix_of(header) {
        if header.len() > 6 {
            number_or_zero(trim(header.skip(6)))
        } else {
            0
        }
    } else {
        0
    }
}

/// The file that a line offers: the size is what follows the last space, the
/// name is all that stands before it. A line without a space offers a file
/// without a name.
pub open spec fn entry_of(line: Seq<u8>) -> (Seq<u8>, u64) {
    let at = find_last(line, SPACE);
    if at < 0 {
        (Seq::empty(), number_or_zero(line))
    } else {
        (line.take(at), number_or_zero(line.skip(at + 1)))
    }
}

/// The files that the lines of a request offer: as many as the header
/// announces, or as many as there are lines after it, if that is fewer.
pub open spec fn offered(text: Seq<Seq<u8>>) -> Seq<(Seq<u8>, u64)> {
    if text.len() == 0 {
        Seq::empty()
    } else {
        let announced = announced(trim(text[0])) as int;
        let count = if announced <= text.len() - 1 {
            announced
        } else {
            text.len() - 1
        };
        Seq::new(count as nat, |i: int| entry_of(text[i + 1]))
    }
}

/// The files that a request offers, read from the bytes received.
pub open spec fn requested(received: Seq<u8>) -> Seq<(Seq<u8>, u64)> {
    offered(lines(request_buffer(received)))
}

/// The lines that name `names`, each ended by a line feed.
pub open spec fn name_lines(names: Seq<Seq<u8>>) -> Seq<u8>
    decreases names.len(),
{
    if names.len() == 0 {
        Seq::empty()
    } else {
        name_lines(names.drop_last()) + names.last() + seq![NEWLINE]
    }
}

/// The response to a request of which `decision` is accepted: a rejection
/// where nothing is accepted.
pub open spec fn response_text(decision: Seq<Seq<u8>>) -> Seq<u8> {
    if decision.len() == 0 {
        reject_word() + seq![NEWLINE]
    } else {
        accept_word() + seq![NEWLINE] + name_lines(decision)
    }
}

/// What a response says.
#[derive(Debug, PartialEq, Eq)]
pub enum ControlResponse {
    /// These names are accepted.
    Accept(Vec<Vec<u8>>),
    /// Nothing is accepted.
    Reject,
    /// The response is neither an acceptance nor a rejection.
    Unrecognized,
}

/// What a [`ControlResponse`] holds.
pub enum ControlResponseView {
    Accept(Seq<Seq<u8>>),
    Reject,
    Unrecognized,
}

impl View for ControlResponse {
    type V = ControlResponseView;

    open spec fn view(&self) -> ControlResponseView {
        match self {
            ControlResponse::Accept(names) => ControlResponseView::Accept(views(names@)),
            ControlResponse::Reject => ControlResponseView::Reject,
            ControlResponse::Unrecognized => ControlResponseView::Unrecognized,
        }
    }
}

/// What a response says: one that begins with `ACCEPT` accepts the names on
/// the lines after the first, one that begins with `REJECT` rejects.
pub open spec fn response_of(text: Seq<u8>) -> ControlResponseView {
    if accept_word().is_prefix_of(text) {
        ControlResponseView::Accept(lines(text).skip(1))
    } else if reject_word().is_prefix_of(text) {
        ControlResponseView::Reject
    } else {
        ControlResponseView::Unrecognized
    }
}

/// Appends the word `FILES` to `out`.
fn push_files_word(out: &mut Vec<u8>)
    ensures
        final(out)@ == old(out)@ + files_word(),
{
    out.push(70);
    out.push(73);
    out.push(76);
    out.push(69);
    out.push(83);
    assert(out@ =~= old(out)@ + files_word());
}

/// Appends the word `ACCEPT` to `out`.
pub(crate) fn push_accept_word(out: &mut Vec<u8>)
    ensures
        final(out)@ == old(out)@ + accept_word(),
{
    out.push(65);
    out.push(67);
    out.push(67);
    out.push(69);
    out.push(80);
    out.push(84);
    assert(out@ =~= old(out)@ + accept_word());
}

/// Appends the word `REJECT` to `out`.
pub(crate) fn push_reject_word(out: &mut Vec<u8>)
    ensures
        final(out)@ == old(out)@ + reject_word(),
{
    out.push(82);
    out.push(69);
    out.push(74);
    out.push(69);
    out.push(67);
    out.push(84);
    assert(out@ =~= old(out)@ + reject_word());
}

/// Whether `text` begins with the word `FILES`.
fn begins_with_files(text: &[u8]) -> (found: bool)
    ensures
        found == files_word().is_prefix_of(text@),
{
    if text.len() >= 5 && text[0] == 70 && text[1] == 73 && text[2] == 76 && text[3] == 69
        && text[4] == 83 {
        assert(text@.subrange(0, 5) =~= files_word());
        true
    } else {
        if text.len() >= 5 {
            let ghost head = text@.subrange(0, 5);
            assert(head[0] == text@[0] && head[1] == text@[1] && head[2] == text@[2] && head[3]
                == text@[3] && head[4] == text@[4]);
        }
        false
    }
}

/// Whether `text` begins with the word `ACCEPT`.
pub fn begins_with_accept(text: &[u8]) -> (found: bool)
    ensures
        found == accept_word().is_prefix_of(text@),
{
    if text.len() >= 6 && text[0] == 65 && text[1] == 67 && text[2] == 67 && text[3] == 69
        && text[4] == 80 && text[5] == 84 {
        assert(text@.subrange(0, 6) =~= accept_word());
        true
    } else {
        if text.len() >= 6 {
            let ghost head = text@.subrange(0, 6);
            assert(head[0] == text@[0] && head[1] == text@[1] && head[2] == text@[2] && head[3]
                == text@[3] && head[4] == text@[4] && head[5] == text@[5]);
        }
        false
    }
}

/// Whether `text` begins with the word `REJECT`.
pub fn begins_with_reject(text: &[u8]) -> (found: bool)
    ensures
        found == reject_word().is_prefix_of(text@),
{
    if text.len() >= 6 && text[0] == 82 && text[1] == 69 && text[2] == 74 && text[3] == 69
        && text[4] == 67 && text[5] == 84 {
        assert(text@.subrange(0, 6) =~= reject_word());
        true
    } else {
        if text.len() >= 6 {
            let ghost head = text@.subrange(0, 6);
            assert(head[0] == text@[0] && head[1] == text@[1] && head[2] == text@[2] && head[3]
                == text@[3] && head[4] == text@[4] && head[5] == text@[5]);
        }
        false
    }
}

/// Writes the request that offers `files`, each given by its base name and
/// its size in bytes.
pub fn build_request(files: &Vec<(Vec<u8>, u64)>) -> (text: Vec<u8>)
    ensures
        text@ == request_text(files_view(files@)),
{
    let ghost offered = files_view(files@);
    let mut text: Vec<u8> = Vec::new();
    push_files_word(&mut text);
    text.push(SPACE);
    push_decimal(&mut text, files.len() as u64);
    text.push(NEWLINE);
    let ghost head = text@;
    assert(head =~= files_word() + seq![SPACE] + decimal(files.len() as nat) + seq![NEWLINE]);
    let mut i: usize = 0;
    assert(offered.take(0) =~= Seq::<(Seq<u8>, u64)>::empty());
    while i < files.len()
        invariant
            i <= files.len(),
            offered == files_view(files@),
            text@ == head + entry_lines(offered.take(i as int)),
        decreases files.len() - i,
    {
        let ghost before = offered.take(i as int);
        let ghost next = offered.take(i + 1);
        if i > 0 {
            text.push(NEWLINE);
        }
        push_bytes(&mut text, files[i].0.as_slice());
        text.push(SPACE);
        push_decimal(&mut text, files[i].1);
        proof {
            assert(next.drop_last() =~= before);
            assert(next.last() == offered[i as int]);
            assert(offered[i as int] == (files@[i as int].0@, files@[i as int].1));
            if i == 0 {
                assert(next[0] == next.last());
                assert(text@ =~= head + entry_line(next[0]));
            } else {
                assert(text@ =~= head + (entry_lines(before) + seq![NEWLINE] + entry_line(
                    next.last(),
                )));
            }
        }
        i += 1;
    }
    assert(offered.take(i as int) =~= offered);
    text.push(NEWLINE);
    assert(text@ =~= request_text(offered));
    text
}

/// The number that a field spells, or zero where it spells none.
fn read_number(field: &[u8]) -> (n: u64)
    ensures
        n == number_or_zero(field@),
{
    match parse_u64(field) {
        Some(n) => n,
        None => 0,
    }
}

/// The number of files that a header line announces.
fn read_header(header: &[u8]) -> (count: u64)
    ensures
        count == announced(header@),
{
    if begins_with_files(header) {
        if header.len() > 6 {
            read_number(trim_bytes(slice_subrange(header, 6, header.len())))
        } else {
            0
        }
    } else {
        0
    }
}

/// The file that a line offers.
fn read_entry(line: &[u8]) -> (file: (Vec<u8>, u64))
    ensures
        (file.0@, file.1) == entry_of(line@),
{
    match last_index_of(line, SPACE) {
        Some(at) => {
            let size = read_number(slice_subrange(line, at + 1, line.len()));
            (copy_range(line, 0, at), size)
        },
        None => (Vec::new(), read_number(line)),
    }
}

/// What the receiver's buffer holds of a request.
fn fill_buffer(received: &[u8]) -> (buffer: &[u8])
    ensures
        buffer@ == request_buffer(received@),
{
    if received.len() >= REQUEST_BUFFER_SIZE {
        slice_subrange(received, 0, REQUEST_BUFFER_SIZE)
    } else {
        received
    }
}

/// Reads a request: the files that the bytes received offer.
///
/// Nothing is refused: a request that is cut short, announces more files
/// than it lists or spells a size that is no number offers what can be read
/// of it. Lines that are missing offer no file, and a size that is no number
/// counts as zero.
pub fn parse_request(received: &[u8]) -> (files: Vec<(Vec<u8>, u64)>)
    ensures
        files_view(files@) == requested(received@),
{
    let buffer = fill_buffer(received);
    let text = split_lines(buffer);
    let ghost want = offered(views(text@));
    let mut files: Vec<(Vec<u8>, u64)> = Vec::new();
    if text.len() == 0 {
        assert(files_view(files@) =~= want);
        return files;
    }
    assert(views(text@)[0] == text@[0]@);
    let announced = read_header(trim_bytes(text[0].as_slice()));
    let available: usize = text.len() - 1;
    let count: usize = if announced <= available as u64 {
        announced as usize
    } else {
        available
    };
    let mut i: usize = 0;
    while i < count
        invariant
            i <= count,
            count < text.len(),
            want == offered(views(text@)),
            want.len() == count,
            files@.len() == i,
            forall|j: int| 0 <= j < i ==> (#[trigger] files@[j].0@, files@[j].1) == want[j],
        decreases count - i,
    {
        assert(views(text@)[i + 1] == text@[i + 1]@);
        let file = read_entry(text[i + 1].as_slice());
        files.push(file);
        i += 1;
    }
    assert(files_view(files@) =~= want);
    files
}

/// Writes the response to a request of which `decision` is accepted.
pub fn build_response(decision: &Vec<Vec<u8>>) -> (text: Vec<u8>)
    ensures
        text@ == response_text(views(decision@)),
{
    let ghost names = views(decision@);
    let mut text: Vec<u8> = Vec::new();
    if decision.len() == 0 {
        push_reject_word(&mut text);
        text.push(NEWLINE);
        assert(text@ =~= reject_word() + seq![NEWLINE]);
        return text;
    }
    push_accept_word(&mut text);
    text.push(NEWLINE);
    let ghost head = text@;
    assert(head =~= accept_word() + seq![NEWLINE]);
    let mut i: usize = 0;
    assert(names.take(0) =~= Seq::<Seq<u8>>::empty());
    while i < decision.len()
        invariant
            i <= decision.len(),
            names == views(decision@),
            text@ == head + name_lines(names.take(i as int)),
        decreases decision.len() - i,
    {
        let ghost before = names.take(i as int);
        let ghost next = names.take(i + 1);
        push_bytes(&mut text, decision[i].as_slice());
        text.push(NEWLINE);
        proof {
            assert(next.drop_last() =~= before);
            assert(next.last() == decision@[i as int]@);
            assert(text@ =~= head + (name_lines(before) + next.last() + seq![NEWLINE]));
        }
        i += 1;
    }
    assert(names.take(i as int) =~= names);
    text
}

/// Reads a response.
pub fn parse_response(text: &[u8]) -> (response: ControlResponse)
    ensures
        response@ == response_of(text@),
{
    if begins_with_accept(text) {
        let mut all = split_lines(text);
        proof {
            lemma_find_first(text@, NEWLINE);
            assert(lines(text@).len() >= 1);
        }
        let ghost before = views(all@);
        all.remove(0);
        assert(views(all@) =~= before.skip(1));
        ControlResponse::Accept(all)
    } else if begins_with_reject(text) {
        ControlResponse::Reject
    } else {
        ControlResponse::Unrecognized
    }
}

/// Takes in a request: reads the files that the bytes received offer, and
/// enters the offer, not yet decided, under a fresh identifier. Where the
/// registry holds only offers that were entered under this generator's
/// identifiers, the offer is a new one and every other offer stays.
///
/// The generator must not be used up. `from` is the identity under which
/// discovery knows the peer at the other
/// end of the connection.
pub fn open_offer(
    counter: &mut IdGenerator,
    offers: &mut OfferRegistry,
    from: PingResponse,
    received: &[u8],
) -> (id: u32)
    requires
        old(offers).wf(),
        old(counter)@ < u32::MAX,
    ensures
        final(offers).wf(),
        id == old(counter)@,
        final(counter)@ == old(counter)@ + 1,
        final(offers)@ == old(offers)@.insert(
            id,
            RequestDataView { from: from@, files: requested(received@), accepted_files: None },
        ),
        all_below(old(offers)@.dom(), old(counter)@) ==> !old(offers)@.contains_key(id)
            && all_below(final(offers)@.dom(), final(counter)@),
{
    let files = parse_request(received);
    let ghost before = offers@;
    let id = get_inc(counter);
    let offer = RequestData::new(from, files);
    proof {
        if all_below(before.dom(), id) {
            lemma_next_key_is_new(before, id, offer@);
        }
    }
    offers.insert(id, offer);
    id
}

/// The response that is due for the offer under `id`: none while the offer
/// is not decided, a rejection where no offer stands under `id`.
pub open spec fn answer_of(offers: Map<u32, RequestDataView>, id: u32) -> Option<Seq<u8>> {
    if offers.contains_key(id) {
        match offers[id].accepted_files {
            Some(names) => Some(response_text(names)),
            None => None,
        }
    } else {
        Some(response_text(Seq::empty()))
    }
}

/// The promises after the offer under `id` has been answered: each accepted
/// name is promised once to the peer that made the offer.
pub open spec fn promises_after_answer(
    offers: Map<u32, RequestDataView>,
    id: u32,
    promises: Promises,
) -> Promises {
    if offers.contains_key(id) {
        match offers[id].accepted_files {
            Some(names) => after_promises(promises, offers[id].from.addr.ip, names),
            None => promises,
        }
    } else {
        promises
    }
}

/// Looks whether the offer under `id` can be answered.
///
/// While the offer is not decided, nothing is returned and nothing changes:
/// look again after [`POLL_INTERVAL_MS`]. Once it is decided, the response
/// to write is returned, and every accepted name is entered in the ledger
/// for the peer that made the offer.
pub fn answer_offer(offers: &OfferRegistry, ledger: &mut Ledger, id: u32) -> (reply: Option<
    Vec<u8>,
>)
    requires
        old(ledger).wf(),
    ensures
        final(ledger).wf(),
        match reply {
            Some(text) => answer_of(offers@, id) == Some(text@),
            None => answer_of(offers@, id) is None,
        },
        final(ledger)@ == promises_after_answer(offers@, id, old(ledger)@),
{
    let offer = match offers.get(id) {
        Some(offer) => offer,
        None => {
            let none: Vec<Vec<u8>> = Vec::new();
            assert(views(none@) =~= Seq::<Seq<u8>>::empty());
            return Some(build_response(&none));
        },
    };
    let accepted = match offer.accepted_files {
        Some(accepted) => accepted,
        None => {
            return None;
        },
    };
    let ghost names = views(accepted@);
    let ghost ip = offer.from.addr.ip@;
    let ghost before = ledger@;
    let text = build_response(&accepted);
    let mut i: usize = 0;
    assert(names.take(0) =~= Seq::<Seq<u8>>::empty());
    while i < accepted.len()
        invariant
            i <= accepted.len(),
            ledger.wf(),
            names == views(accepted@),
            ip == offer.from.addr.ip@,
            ledger@ == after_promises(before, ip, names.take(i as int)),
        decreases accepted.len() - i,
    {
        let ghost next = names.take(i + 1);
        assert(next.drop_last() =~= names.take(i as int));
        assert(next.last() == accepted@[i as int]@);
        ledger.promise(offer.from.addr.ip.as_slice(), accepted[i].clone());
        i += 1;
    }
    assert(names.take(i as int) =~= names);
    Some(text)
}

/// A file that the sender offers.
#[derive(Debug, PartialEq, Eq)]
pub struct LocalFile {
    /// The path under which the file is read.
    pub path: Vec<u8>,
    /// The base name of the path: the only part of it that the receiver
    /// learns.
    pub name: Vec<u8>,
    /// The size of the file in bytes.
    pub size: u64,
}

/// What a [`LocalFile`] holds.
pub struct LocalFileView {
    pub path: Seq<u8>,
    pub name: Seq<u8>,
    pub size: u64,
}

impl View for LocalFile {
    type V = LocalFileView;

    open spec fn view(&self) -> LocalFileView {
        LocalFileView { path: self.path@, name: self.name@, size: self.size }
    }
}

/// `Path::file_name` of the standard library: the last component of the
/// path, as the platform reads paths, if the path has one. Nothing is
/// claimed of it. A path that is not valid UTF-8 has none.
#[verifier::external_body]
fn path_file_name(path: &[u8]) -> (name: Option<Vec<u8>>) {
    match std::str::from_utf8(path) {
        Ok(text) => match std::path::Path::new(text).file_name() {
            Some(name) => Some(name.to_string_lossy().into_owned().into_bytes()),
            None => None,
        },
        Err(_) => None,
    }
}

/// The file that is offered under the name `name`, if there is a name.
pub fn named_file(path: Vec<u8>, name: Option<Vec<u8>>, size: u64) -> (file: Option<LocalFile>)
    ensures
        match name {
            Some(n) => file matches Some(f) && f@ == (LocalFileView {
                path: path@,
                name: n@,
                size,
            }),
            None => file is None,
        },
{
    match name {
        Some(name) => Some(LocalFile { path, name, size }),
        None => None,
    }
}

impl LocalFile {
    /// The file at `path` with its size, offered under the base name of the
    /// path. A path without a base name offers no file.
    pub fn from_path(path: Vec<u8>, size: u64) -> (file: Option<Self>)
        ensures
            file matches Some(f) ==> f@.path == path@ && f@.size == size,
    {
        let name = path_file_name(path.as_slice());
        named_file(path, name, size)
    }
}

/// One file to send over a data channel of its own.
#[derive(Debug, PartialEq, Eq)]
pub struct SendTask {
    /// The identifier of the transfer's record.
    pub key: u32,
    /// The peer that takes the file.
    pub dest: PeerAddr,
    /// The path under which the file is read.
    pub file: Vec<u8>,
}

/// What a [`SendTask`] holds.
pub struct SendTaskView {
    pub key: u32,
    pub dest: PeerAddrView,
    pub file: Seq<u8>,
}

impl View for SendTask {
    type V = SendTaskView;

    open spec fn view(&self) -> SendTaskView {
        SendTaskView { key: self.key, dest: self.dest@, file: self.file@ }
    }
}

/// The views of a list of local files.
pub open spec fn local_files_view(files: Seq<LocalFile>) -> Seq<LocalFileView> {
    files.map_values(|file: LocalFile| file@)
}

/// The views of a list of tasks.
pub open spec fn tasks_view(tasks: Seq<SendTask>) -> Seq<SendTaskView> {
    tasks.map_values(|task: SendTask| task@)
}

/// What a request says of `files`: of each its base name and its size.
pub open spec fn entries_of(files: Seq<LocalFileView>) -> Seq<(Seq<u8>, u64)> {
    files.map_values(|file: LocalFileView| (file.name, file.size))
}

/// The place of the first file with the base name `name`, or the number of
/// files where none has it.
pub open spec fn first_named(files: Seq<LocalFileView>, name: Seq<u8>) -> int
    decreases files.len(),
{
    if files.len() == 0 || files[0].name == name {
        0
    } else {
        1 + first_named(files.drop_first(), name)
    }
}

/// The places of the files that `accepted` picks: for each accepted name
/// that is the base name of a file, in the order of the names, the place of
/// the first such file.
pub open spec fn picks(files: Seq<LocalFileView>, accepted: Seq<Seq<u8>>) -> Seq<int>
    decreases accepted.len(),
{
    if accepted.len() == 0 {
        Seq::empty()
    } else {
        let earlier = picks(files, accepted.drop_last());
        let at = first_named(files, accepted.last());
        if 0 <= at < files.len() {
            earlier.push(at)
        } else {
            earlier
        }
    }
}

/// The record with which the transfer of `file` to `dest` begins.
pub open spec fn sending_record(file: LocalFileView, dest: PeerAddrView) -> TransferStateView {
    TransferStateView {
        ttype: TransferType::Sending,
        original_filepath: file.path,
        dest_filepath: Seq::empty(),
        transferred: 0,
        size: file.size,
        peer: dest,
    }
}

/// The tasks for the files at `picks`, with identifiers from `first_id` on.
pub open spec fn planned(
    files: Seq<LocalFileView>,
    dest: PeerAddrView,
    first_id: u32,
    picks: Seq<int>,
) -> Seq<SendTaskView> {
    Seq::new(
        picks.len(),
        |k: int|
            SendTaskView { key: nth_id(first_id, k as nat), dest, file: files[picks[k]].path },
    )
}

/// The records after the transfers of the files at `picks` have been
/// entered, with identifiers from `first_id` on.
pub open spec fn recorded(
    status: Map<u32, TransferStateView>,
    files: Seq<LocalFileView>,
    dest: PeerAddrView,
    first_id: u32,
    picks: Seq<int>,
) -> Map<u32, TransferStateView>
    decreases picks.len(),
{
    if picks.len() == 0 {
        status
    } else {
        recorded(status, files, dest, first_id, picks.drop_last()).insert(
            nth_id(first_id, (picks.len() - 1) as nat),
            sending_record(files[picks.last()], dest),
        )
    }
}

/// What `first_named` returns lies within `files`, no file before it has the
/// name, and the file at it has the name unless it is the end of `files`.
pub proof fn lemma_first_named(files: Seq<LocalFileView>, name: Seq<u8>)
    ensures
        0 <= first_named(files, name) <= files.len(),
        forall|j: int| 0 <= j < first_named(files, name) ==> files[j].name != name,
        first_named(files, name) < files.len() ==> files[first_named(files, name)].name == name,
    decreases files.len(),
{
    if files.len() == 0 || files[0].name == name {
    } else {
        let rest = files.drop_first();
        lemma_first_named(rest, name);
        assert forall|j: int| 0 <= j < first_named(files, name) implies files[j].name
            != name by {
            if j > 0 {
                assert(files[j] == rest[j - 1]);
            }
        }
        assert(first_named(files, name) < files.len() ==> files[first_named(files, name)]
            == rest[first_named(rest, name)]);
    }
}

/// A place with the three properties of `lemma_first_named` is what
/// `first_named` returns.
pub proof fn lemma_first_named_is(files: Seq<LocalFileView>, name: Seq<u8>, i: int)
    requires
        0 <= i <= files.len(),
        forall|j: int| 0 <= j < i ==> files[j].name != name,
        i < files.len() ==> files[i].name == name,
    ensures
        first_named(files, name) == i,
    decreases files.len(),
{
    if files.len() == 0 || files[0].name == name {
    } else {
        let rest = files.drop_first();
        assert forall|j: int| 0 <= j < i - 1 implies rest[j].name != name by {
            assert(rest[j] == files[j + 1]);
        }
        lemma_first_named_is(rest, name, i - 1);
    }
}

/// Never more files are picked than names are accepted, and every pick is
/// the place of a file.
pub proof fn lemma_picks_bounded(files: Seq<LocalFileView>, accepted: Seq<Seq<u8>>)
    ensures
        picks(files, accepted).len() <= accepted.len(),
        forall|k: int|
            0 <= k < picks(files, accepted).len() ==> 0 <= #[trigger] picks(files, accepted)[k]
                < files.len(),
    decreases accepted.len(),
{
    if accepted.len() > 0 {
        lemma_picks_bounded(files, accepted.drop_last());
    }
}

/// Whether some file has the base name `name`.
pub open spec fn is_offered(files: Seq<LocalFileView>, name: Seq<u8>) -> bool {
    exists|j: int| 0 <= j < files.len() && (#[trigger] files[j]).name == name
}

/// Where every accepted name is the base name of a file on offer, exactly
/// one file is picked for each accepted name, and it has that name: as many
/// transfers start as names are accepted.
pub proof fn lemma_one_task_per_accepted_name(
    files: Seq<LocalFileView>,
    accepted: Seq<Seq<u8>>,
)
    requires
        forall|k: int| 0 <= k < accepted.len() ==> is_offered(files, #[trigger] accepted[k]),
    ensures
        picks(files, accepted).len() == accepted.len(),
        forall|k: int|
            0 <= k < accepted.len() ==> 0 <= #[trigger] picks(files, accepted)[k] < files.len()
                && files[picks(files, accepted)[k]].name == accepted[k],
    decreases accepted.len(),
{
    if accepted.len() > 0 {
        let earlier = accepted.drop_last();
        assert forall|k: int| 0 <= k < earlier.len() implies is_offered(
            files,
            #[trigger] earlier[k],
        ) by {
            assert(earlier[k] == accepted[k]);
        }
        lemma_one_task_per_accepted_name(files, earlier);
        let last = accepted.len() - 1;
        assert(is_offered(files, accepted[last]));
        let j = choose|j: int| 0 <= j < files.len() && (#[trigger] files[j]).name == accepted[last];
        lemma_first_named(files, accepted.last());
        if first_named(files, accepted.last()) >= files.len() {
            assert(files[j].name != accepted.last());
        }
        assert forall|k: int| 0 <= k < accepted.len() implies 0 <= #[trigger] picks(
            files,
            accepted,
        )[k] < files.len() && files[picks(files, accepted)[k]].name == accepted[k] by {
            if k < last {
                assert(picks(files, accepted)[k] == picks(files, earlier)[k]);
                assert(earlier[k] == accepted[k]);
            }
        }
    }
}

/// The place of the first file with the base name `name`.
fn find_named(files: &Vec<LocalFile>, name: &[u8]) -> (at: usize)
    ensures
        at == first_named(local_files_view(files@), name@),
        at <= files.len(),
{
    let mut i: usize = 0;
    while i < files.len() && !bytes_eq(files[i].name.as_slice(), name)
        invariant
            i <= files.len(),
            forall|j: int| 0 <= j < i ==> files@[j]@.name != name@,
        decreases files.len() - i,
    {
        i += 1;
    }
    proof {
        let fv = local_files_view(files@);
        assert forall|j: int| 0 <= j < i implies fv[j].name != name@ by {
            assert(fv[j] == files@[j]@);
        }
        if i < files.len() {
            assert(fv[i as int] == files@[i as int]@);
        }
        lemma_first_named_is(fv, name@, i as int);
    }
    i
}

/// Writes the request that offers `files` to a peer.
pub fn offer_files(files: &Vec<LocalFile>) -> (text: Vec<u8>)
    ensures
        text@ == request_text(entries_of(local_files_view(files@))),
{
    let mut entries: Vec<(Vec<u8>, u64)> = Vec::new();
    let mut i: usize = 0;
    while i < files.len()
        invariant
            i <= files.len(),
            entries@.len() == i,
            forall|j: int|
                0 <= j < i ==> (#[trigger] entries@[j]).0@ == files@[j]@.name && entries@[j].1
                    == files@[j]@.size,
        decreases files.len() - i,
    {
        entries.push((files[i].name.clone(), files[i].size));
        i += 1;
    }
    assert(files_view(entries@) =~= entries_of(local_files_view(files@)));
    build_request(&entries)
}

/// Whether the records `after` are the records `before` and `added` new
/// ones: every record of `before` stands in `after` unchanged, `after` has
/// `added` records more, and every key of `after` has been handed out by a
/// generator whose next identifier is `next`.
pub open spec fn kept_and_grown(before: Records, after: Records, next: u32, added: nat) -> bool {
    &&& forall|key: u32|
        before.contains_key(key) ==> #[trigger] after.contains_key(key) && after[key]
            == before[key]
    &&& before.dom().finite()
    &&& after.dom().finite()
    &&& after.dom().len() == before.dom().len() + added
    &&& all_below(after.dom(), next)
}

/// Starts the transfers that the receiver accepted.
///
/// For each name of `accepted`, in their order, the first file of `files`
/// with that base name is looked up. For each file found, a record is
/// entered under a fresh identifier, in the phase of sending and with
/// nothing sent yet, and the task of sending the file is returned. A name
/// that no file has starts nothing.
///
/// Where the registry holds only records that were entered under this
/// generator's identifiers, the new records are new ones and every other
/// record stays. The generator must have an identifier left for each name.
pub fn start_transfers(
    counter: &mut IdGenerator,
    status: &mut TransferRegistry,
    dest: &PeerAddr,
    files: &Vec<LocalFile>,
    accepted: &Vec<Vec<u8>>,
) -> (tasks: Vec<SendTask>)
    requires
        old(status).wf(),
        old(counter)@ + accepted@.len() <= u32::MAX,
    ensures
        final(status).wf(),
        tasks_view(tasks@) == planned(
            local_files_view(files@),
            dest@,
            old(counter)@,
            picks(local_files_view(files@), views(accepted@)),
        ),
        final(status)@ == recorded(
            old(status)@,
            local_files_view(files@),
            dest@,
            old(counter)@,
            picks(local_files_view(files@), views(accepted@)),
        ),
        final(counter)@ == old(counter)@ + picks(
            local_files_view(files@),
            views(accepted@),
        ).len(),
        all_below(old(status)@.dom(), old(counter)@) ==> kept_and_grown(
            old(status)@,
            final(status)@,
            final(counter)@,
            picks(local_files_view(files@), views(accepted@)).len(),
        ),
{
    let ghost fv = local_files_view(files@);
    let ghost names = views(accepted@);
    let ghost first_id = counter@;
    let ghost before = status@;
    let mut tasks: Vec<SendTask> = Vec::new();
    let mut i: usize = 0;
    proof {
        assert(names.take(0) =~= Seq::<Seq<u8>>::empty());
        assert(tasks_view(tasks@) =~= planned(fv, dest@, first_id, Seq::<int>::empty()));
    }
    while i < accepted.len()
        invariant
            i <= accepted.len(),
            status.wf(),
            fv == local_files_view(files@),
            names == views(accepted@),
            tasks_view(tasks@) == planned(fv, dest@, first_id, picks(fv, names.take(i as int))),
            status@ == recorded(before, fv, dest@, first_id, picks(fv, names.take(i as int))),
            first_id + accepted@.len() <= u32::MAX,
            picks(fv, names.take(i as int)).len() <= i,
            counter@ == first_id + picks(fv, names.take(i as int)).len(),
        decreases accepted.len() - i,
    {
        let ghost earlier = picks(fv, names.take(i as int));
        let ghost next = names.take(i + 1);
        proof {
            assert(next.drop_last() =~= names.take(i as int));
            assert(next.last() == accepted@[i as int]@);
        }
        let at = find_named(files, accepted[i].as_slice());
        if at < files.len() {
            let ghost tasks_before = tasks_view(tasks@);
            let key = get_inc(counter);
            let record = TransferState {
                ttype: TransferType::Sending,
                original_filepath: files[at].path.clone(),
                dest_filepath: Vec::new(),
                transferred: 0,
                size: files[at].size,
                peer: dest.clone(),
            };
            status.insert(key, record);
            let task = SendTask { key, dest: dest.clone(), file: files[at].path.clone() };
            tasks.push(task);
            proof {
                let now = picks(fv, next);
                assert(now == earlier.push(at as int));
                assert(now.drop_last() =~= earlier);
                assert(fv[at as int] == files@[at as int]@);
                assert(tasks_view(tasks@) =~= tasks_before.push(task@));
                assert(tasks_view(tasks@) =~= planned(fv, dest@, first_id, now));
            }
        }
        i += 1;
    }
    assert(names.take(i as int) =~= names);
    proof {
        if all_below(before.dom(), first_id) {
            lemma_picks_bounded(fv, names);
            lemma_tracks_len(old(status).keys(), before.dom());
            lemma_records_stay_behind(before, fv, dest@, first_id, picks(fv, names));
        }
    }
    tasks
}

/// The names that a response accepts: none unless it is an acceptance.
pub open spec fn accepted_by(response: ControlResponseView) -> Seq<Seq<u8>> {
    match response {
        ControlResponseView::Accept(names) => names,
        _ => Seq::empty(),
    }
}

/// Acts on the response to a request that offered `files` to `dest`: starts
/// the transfers that an acceptance names, and nothing on a rejection or on
/// a response that is neither.
///
/// The generator must have an identifier left for each line that the
/// response can hold.
pub fn handle_response(
    counter: &mut IdGenerator,
    status: &mut TransferRegistry,
    dest: &PeerAddr,
    files: &Vec<LocalFile>,
    response: &[u8],
) -> (tasks: Vec<SendTask>)
    requires
        old(status).wf(),
        old(counter)@ + response@.len() <= u32::MAX,
    ensures
        final(status).wf(),
        tasks_view(tasks@) == planned(
            local_files_view(files@),
            dest@,
            old(counter)@,
            picks(local_files_view(files@), accepted_by(response_of(response@))),
        ),
        final(status)@ == recorded(
            old(status)@,
            local_files_view(files@),
            dest@,
            old(counter)@,
            picks(local_files_view(files@), accepted_by(response_of(response@))),
        ),
        final(counter)@ == old(counter)@ + picks(
            local_files_view(files@),
            accepted_by(response_of(response@)),
        ).len(),
        all_below(old(status)@.dom(), old(counter)@) ==> kept_and_grown(
            old(status)@,
            final(status)@,
            final(counter)@,
            picks(local_files_view(files@), accepted_by(response_of(response@))).len(),
        ),
{
    match parse_response(response) {
        ControlResponse::Accept(names) => {
            proof {
                lemma_lines_len(response@);
                assert(views(names@) == lines(response@).skip(1));
                assert(views(names@).len() == names@.len());
            }
            start_transfers(counter, status, dest, files, &names)
        },
        _ => {
            let tasks: Vec<SendTask> = Vec::new();
            proof {
                assert(picks(local_files_view(files@), Seq::<Seq<u8>>::empty()) =~= Seq::<
                    int,
                >::empty());
                assert(tasks_view(tasks@) =~= planned(
                    local_files_view(files@),
                    dest@,
                    counter@,
                    Seq::<int>::empty(),
                ));
                lemma_tracks_len(status.keys(), status@.dom());
            }
            tasks
        },
    }
}

/// The records after new transfers were entered hold every record that
/// stood there before, unchanged, and one more for each transfer, under
/// identifiers that were no keys before. This holds where none of the
/// identifiers to come is a key of the registry yet.
pub proof fn lemma_new_records_are_new(
    status: Records,
    files: Seq<LocalFileView>,
    dest: PeerAddrView,
    first_id: u32,
    picks: Seq<int>,
)
    requires
        status.dom().finite(),
        unused(status.dom(), first_id, picks.len()),
        first_id + picks.len() <= u32::MAX,
    ensures
        forall|key: u32|
            status.contains_key(key) ==> #[trigger] recorded(
                status,
                files,
                dest,
                first_id,
                picks,
            ).contains_key(key) && recorded(status, files, dest, first_id, picks)[key]
                == status[key],
        forall|k: int|
            0 <= k < picks.len() ==> !status.contains_key(nth_id(first_id, k as nat)) && recorded(
                status,
                files,
                dest,
                first_id,
                picks,
            ).contains_key(#[trigger] nth_id(first_id, k as nat)) && recorded(
                status,
                files,
                dest,
                first_id,
                picks,
            )[nth_id(first_id, k as nat)] == sending_record(files[picks[k]], dest),
        forall|key: u32| #[trigger]
            recorded(status, files, dest, first_id, picks).contains_key(key)
                ==> status.contains_key(key) || exists|i: nat|
                i < picks.len() && key == #[trigger] nth_id(first_id, i),
        recorded(status, files, dest, first_id, picks).dom().finite(),
        recorded(status, files, dest, first_id, picks).dom().len() == status.dom().len()
            + picks.len(),
    decreases picks.len(),
{
    let after = recorded(status, files, dest, first_id, picks);
    if picks.len() > 0 {
        let earlier = picks.drop_last();
        let before = recorded(status, files, dest, first_id, earlier);
        let last = (picks.len() - 1) as nat;
        let key = nth_id(first_id, last);
        assert forall|i: nat| i < earlier.len() implies !status.dom().contains(
            #[trigger] nth_id(first_id, i),
        ) by {}
        lemma_new_records_are_new(status, files, dest, first_id, earlier);
        assert(!status.dom().contains(nth_id(first_id, last)));
        assert(!before.contains_key(key)) by {
            if before.contains_key(key) {
                let i = choose|i: nat| i < earlier.len() && key == #[trigger] nth_id(first_id, i);
                assert(nth_id(first_id, i) == first_id + i);
            }
        }
        assert(after.dom() =~= before.dom().insert(key));
        assert forall|k: int| 0 <= k < picks.len() implies !status.contains_key(
            nth_id(first_id, k as nat),
        ) && after.contains_key(#[trigger] nth_id(first_id, k as nat)) && after[nth_id(
            first_id,
            k as nat,
        )] == sending_record(files[picks[k]], dest) by {
            assert(!status.dom().contains(nth_id(first_id, k as nat)));
            if k < last {
                assert(earlier[k] == picks[k]);
                assert(nth_id(first_id, k as nat) != key);
            }
        }
        assert forall|other: u32| #[trigger] after.contains_key(other) implies status.contains_key(
            other,
        ) || exists|i: nat| i < picks.len() && other == #[trigger] nth_id(first_id, i) by {
            if other == key {
                assert(last < picks.len() && other == nth_id(first_id, last));
            } else if !status.contains_key(other) {
                assert(before.contains_key(other));
                let i = choose|i: nat| i < earlier.len() && other == #[trigger] nth_id(first_id, i);
                assert(i < picks.len() && other == nth_id(first_id, i));
            }
        }
    }
}

/// The registry stays behind the generator: where every key of the
/// registry has been handed out before new transfers are entered, that is
/// still so afterwards, and none of the old records has changed.
pub proof fn lemma_records_stay_behind(
    status: Records,
    files: Seq<LocalFileView>,
    dest: PeerAddrView,
    first_id: u32,
    picks: Seq<int>,
)
    requires
        status.dom().finite(),
        all_below(status.dom(), first_id),
        first_id + picks.len() <= u32::MAX,
    ensures
        all_below(
            recorded(status, files, dest, first_id, picks).dom(),
            nth_id(first_id, picks.len()),
        ),
        forall|key: u32|
            status.contains_key(key) ==> #[trigger] recorded(
                status,
                files,
                dest,
                first_id,
                picks,
            ).contains_key(key) && recorded(status, files, dest, first_id, picks)[key]
                == status[key],
        recorded(status, files, dest, first_id, picks).dom().finite(),
        recorded(status, files, dest, first_id, picks).dom().len() == status.dom().len()
            + picks.len(),
{
    lemma_below_is_unused(status.dom(), first_id, picks.len());
    lemma_new_records_are_new(status, files, dest, first_id, picks);
    lemma_keys_stay_below(
        status.dom(),
        first_id,
        picks.len(),
        recorded(status, files, dest, first_id, picks).dom(),
    );
}

/// The lines that name `names` are read back as `names`.
pub proof fn lemma_name_lines_read_back(names: Seq<Seq<u8>>)
    requires
        are_lines(names),
    ensures
        is_ended(name_lines(names)),
        lines(name_lines(names)) == names,
    decreases names.len(),
{
    if names.len() == 0 {
        assert(lines(name_lines(names)) =~= names);
    } else {
        let earlier = names.drop_last();
        let last = names.last();
        assert forall|k: int| 0 <= k < earlier.len() implies is_line(#[trigger] earlier[k]) by {
            assert(earlier[k] == names[k]);
        }
        lemma_name_lines_read_back(earlier);
        assert(is_line(names[names.len() - 1]));
        lemma_lines_of_one(last);
        assert(name_lines(names) =~= name_lines(earlier) + (last + seq![NEWLINE]));
        lemma_lines_concat(name_lines(earlier), last + seq![NEWLINE]);
        assert(earlier + seq![last] =~= names);
    }
}

/// A decision is read back from its response: the sender learns the names
/// that the receiver accepted, in their order, and learns of a rejection
/// where none was accepted.
pub proof fn lemma_response_round_trip(decision: Seq<Seq<u8>>)
    requires
        are_lines(decision),
    ensures
        response_of(response_text(decision)) == if decision.len() == 0 {
            ControlResponseView::Reject
        } else {
            ControlResponseView::Accept(decision)
        },
        accepted_by(response_of(response_text(decision))) == decision,
{
    let text = response_text(decision);
    if decision.len() == 0 {
        assert(text[0] == 82);
        assert(accept_word()[0] == 65);
        if accept_word().is_prefix_of(text) {
            assert(text.subrange(0, 6)[0] == accept_word()[0]);
        }
        assert(text.subrange(0, 6) =~= reject_word());
        assert(decision =~= Seq::<Seq<u8>>::empty());
    } else {
        let head = accept_word() + seq![NEWLINE];
        assert(text.subrange(0, 6) =~= accept_word());
        assert forall|i: int| 0 <= i < accept_word().len() implies #[trigger] accept_word()[i]
            != NEWLINE by {}
        lemma_lines_of_one(accept_word());
        lemma_name_lines_read_back(decision);
        assert(head.last() == NEWLINE);
        lemma_lines_concat(head, name_lines(decision));
        assert(lines(text) =~= seq![accept_word()] + decision);
        assert(lines(text).skip(1) =~= decision);
    }
}

/// For every request and every decision that accepts some of its files,
/// the sender starts exactly one transfer for each accepted file, and
/// starts it for a file with that base name.
pub proof fn lemma_accepted_files_are_sent(files: Seq<LocalFileView>, decision: Seq<Seq<u8>>)
    requires
        are_lines(decision),
        forall|k: int| 0 <= k < decision.len() ==> is_offered(files, #[trigger] decision[k]),
    ensures
        picks(files, accepted_by(response_of(response_text(decision)))).len() == decision.len(),
        forall|k: int|
            0 <= k < decision.len() ==> 0 <= #[trigger] picks(
                files,
                accepted_by(response_of(response_text(decision))),
            )[k] < files.len() && files[picks(
                files,
                accepted_by(response_of(response_text(decision))),
            )[k]].name == decision[k],
{
    lemma_response_round_trip(decision);
    lemma_one_task_per_accepted_name(files, decision);
}

/// For every request and every decision that accepts some of its files,
/// the sender starts exactly one new transfer for each accepted file: the
/// task is for a file with that base name, its record is new, in the phase
/// of sending and with nothing sent, and the records that stood in the
/// registry before stand there unchanged. This holds where the registry
/// holds only records that were entered under the generator's identifiers,
/// and the generator has an identifier left for each accepted file.
pub proof fn lemma_accepted_files_start_new_transfers(
    status: Records,
    files: Seq<LocalFileView>,
    dest: PeerAddrView,
    first_id: u32,
    decision: Seq<Seq<u8>>,
)
    requires
        are_lines(decision),
        forall|k: int| 0 <= k < decision.len() ==> is_offered(files, #[trigger] decision[k]),
        status.dom().finite(),
        all_below(status.dom(), first_id),
        first_id + decision.len() <= u32::MAX,
    ensures
        ({
            let chosen = picks(files, accepted_by(response_of(response_text(decision))));
            let tasks = planned(files, dest, first_id, chosen);
            let records = recorded(status, files, dest, first_id, chosen);
            &&& tasks.len() == decision.len()
            &&& kept_and_grown(status, records, nth_id(first_id, decision.len()), decision.len())
            &&& forall|k: int|
                0 <= k < decision.len() ==> {
                    &&& 0 <= chosen[k] < files.len()
                    &&& files[chosen[k]].name == decision[k]
                    &&& (#[trigger] tasks[k]).file == files[chosen[k]].path
                    &&& tasks[k].key == first_id + k
                    &&& !status.contains_key(tasks[k].key)
                    &&& records.contains_key(tasks[k].key)
                    &&& records[tasks[k].key] == sending_record(files[chosen[k]], dest)
                }
        }),
{
    let chosen = picks(files, accepted_by(response_of(response_text(decision))));
    let tasks = planned(files, dest, first_id, chosen);
    let records = recorded(status, files, dest, first_id, chosen);
    lemma_accepted_files_are_sent(files, decision);
    lemma_records_stay_behind(status, files, dest, first_id, chosen);
    lemma_below_is_unused(status.dom(), first_id, chosen.len());
    lemma_new_records_are_new(status, files, dest, first_id, chosen);
    assert forall|k: int| 0 <= k < decision.len() implies {
        &&& 0 <= chosen[k] < files.len()
        &&& files[chosen[k]].name == decision[k]
        &&& (#[trigger] tasks[k]).file == files[chosen[k]].path
        &&& tasks[k].key == first_id + k
        &&& !status.contains_key(tasks[k].key)
        &&& records.contains_key(tasks[k].key)
        &&& records[tasks[k].key] == sending_record(files[chosen[k]], dest)
    } by {
        assert(tasks[k].key == nth_id(first_id, k as nat));
    }
}

/// The line that offers a file is read back as that file.
pub proof fn lemma_entry_round_trip(file: (Seq<u8>, u64))
    ensures
        entry_of(entry_line(file)) == file,
        entry_line(file).len() >= 2,
        entry_line(file).last() != CARRIAGE_RETURN,
        is_one_line(file.0) ==> is_one_line(entry_line(file)),
{
    let line = entry_line(file);
    let number = decimal(file.1 as nat);
    lemma_decimal_digits(file.1 as nat);
    lemma_decimal_round_trip(file.1);
    let at = file.0.len() as int;
    assert(line[at] == SPACE);
    assert forall|j: int| at < j < line.len() implies line[j] != SPACE by {
        assert(line[j] == number[j - at - 1]);
        assert(is_digit(number[j - at - 1]));
    }
    lemma_find_last_is(line, SPACE, at);
    assert(line.take(at) =~= file.0);
    assert(line.skip(at + 1) =~= number);
    assert(line.last() == number.last());
    assert(is_digit(number[number.len() - 1]));
    if is_one_line(file.0) {
        assert forall|i: int| 0 <= i < line.len() implies #[trigger] line[i] != NEWLINE by {
            if i < at {
                assert(line[i] == file.0[i]);
            } else if i > at {
                assert(line[i] == number[i - at - 1]);
                assert(is_digit(number[i - at - 1]));
            }
        }
    }
}

/// The lines that offer `files`, one by one.
pub open spec fn entry_texts(files: Seq<(Seq<u8>, u64)>) -> Seq<Seq<u8>> {
    files.map_values(|file: (Seq<u8>, u64)| entry_line(file))
}

/// Whether none of the names of `files` holds a line feed.
pub open spec fn are_one_line_each(files: Seq<(Seq<u8>, u64)>) -> bool {
    forall|k: int| 0 <= k < files.len() ==> is_one_line((#[trigger] files[k]).0)
}

/// The lines that offer files are read as one line for each file.
pub proof fn lemma_entry_lines_read_back(files: Seq<(Seq<u8>, u64)>)
    requires
        files.len() > 0,
        are_one_line_each(files),
    ensures
        lines(entry_lines(files) + seq![NEWLINE]) == entry_texts(files),
        entry_lines(files).len() >= files.len(),
    decreases files.len(),
{
    let last = files.last();
    lemma_entry_round_trip(last);
    assert(is_one_line(files[files.len() - 1].0));
    lemma_lines_of_one(entry_line(last));
    if files.len() == 1 {
        assert(files[0] == last);
        assert(entry_texts(files) =~= seq![entry_line(last)]);
    } else {
        let earlier = files.drop_last();
        assert forall|k: int| 0 <= k < earlier.len() implies is_one_line(
            (#[trigger] earlier[k]).0,
        ) by {
            assert(earlier[k] == files[k]);
        }
        lemma_entry_lines_read_back(earlier);
        let front = entry_lines(earlier) + seq![NEWLINE];
        assert(entry_lines(files) + seq![NEWLINE] =~= front + (entry_line(last) + seq![NEWLINE]));
        assert(front.last() == NEWLINE);
        lemma_lines_concat(front, entry_line(last) + seq![NEWLINE]);
        assert(entry_texts(files) =~= entry_texts(earlier) + seq![entry_line(last)]);
    }
}

/// The header line that announces `count` files.
pub open spec fn header_line(count: nat) -> Seq<u8> {
    files_word() + seq![SPACE] + decimal(count)
}

/// The header line is read back: it is one line, stays as it is when it is
/// trimmed, and announces its count.
pub proof fn lemma_header_line_read_back(count: nat)
    requires
        count <= u64::MAX,
    ensures
        is_one_line(header_line(count)),
        strip_cr(header_line(count)) == header_line(count),
        announced(trim(header_line(count))) == count,
{
    let number = decimal(count);
    let header = header_line(count);
    lemma_decimal_digits(count);
    lemma_decimal_round_trip(count as u64);
    assert forall|i: int| 0 <= i < header.len() implies #[trigger] header[i] != NEWLINE by {
        if i >= 6 {
            assert(header[i] == number[i - 6]);
            assert(is_digit(number[i - 6]));
        }
    }
    assert(header.last() == number.last());
    assert(is_digit(number[number.len() - 1]));
    assert(header[0] == 70);
    assert(header.skip(0) =~= header);
    assert(header.take(header.len() as int) =~= header);
    assert(trim(header) == header);
    assert(header.subrange(0, 5) =~= files_word());
    assert(header.skip(6) =~= number);
    assert(is_digit(number[0]));
    assert(number.skip(0) =~= number);
    assert(number.take(number.len() as int) =~= number);
    assert(trim(number) == number);
}

/// Lines that are missing offer no file: of a request that announces at
/// least as many files as it lists, the receiver reads the files that are
/// listed, with their sizes, and no other. This holds as long as no name
/// holds a line feed and the request fits the receiver's buffer.
pub proof fn lemma_listed_files_are_read(count: nat, files: Seq<(Seq<u8>, u64)>)
    requires
        are_one_line_each(files),
        files.len() <= count <= u64::MAX,
        files.len() == 0 ==> count == 0,
        request_announcing(count, files).len() <= REQUEST_BUFFER_SIZE,
    ensures
        requested(request_announcing(count, files)) == files,
{
    let n = files.len();
    let text = request_announcing(count, files);
    let header = header_line(count);
    let head = header + seq![NEWLINE];
    let body = entry_lines(files) + seq![NEWLINE];
    let buffer = request_buffer(text);
    lemma_header_line_read_back(count);
    assert(text =~= head + body);
    assert(buffer =~= head + body) by {
        if text.len() >= REQUEST_BUFFER_SIZE {
            assert(text.take(REQUEST_BUFFER_SIZE as int) =~= text);
        }
    }
    let listed = lines(body);
    if n > 0 {
        lemma_entry_lines_read_back(files);
        assert(listed == entry_texts(files));
    } else {
        assert(entry_lines(files) =~= Seq::<u8>::empty());
        assert(body =~= Seq::<u8>::empty() + seq![NEWLINE]);
        lemma_lines_of_one(Seq::<u8>::empty());
    }
    lemma_lines_of_one(header);
    assert(head.last() == NEWLINE);
    lemma_lines_concat(head, body);
    let text_lines = lines(buffer);
    assert(text_lines =~= seq![header] + listed);
    assert(text_lines[0] == header);
    let read = offered(text_lines);
    assert(read.len() == n);
    assert forall|i: int| 0 <= i < n implies read[i] == files[i] by {
        assert(text_lines[i + 1] == listed[i]);
        assert(listed[i] == entry_line(files[i]));
        lemma_entry_round_trip(files[i]);
    }
    assert(read =~= files);
}

/// A request is read back: the receiver reads the files that the sender
/// offered, with their sizes, as long as no name holds a line feed and the
/// request fits the receiver's buffer.
pub proof fn lemma_request_round_trip(files: Seq<(Seq<u8>, u64)>)
    requires
        are_one_line_each(files),
        request_text(files).len() <= REQUEST_BUFFER_SIZE,
    ensures
        requested(request_text(files)) == files,
{
    if files.len() > 0 {
        lemma_entry_lines_read_back(files);
    }
    lemma_listed_files_are_read(files.len(), files);
}

} // verus!
