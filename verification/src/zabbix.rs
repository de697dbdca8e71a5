//! The Zabbix sender protocol: requests, frames and replies.
use crate::bytes;
use crate::json;
use crate::text;
use vstd::prelude::*;

verus! {

/// The longest part of a reply that is read.
pub const REPLY_MAX: usize = 65536;

/// Length of the header of a frame.
pub const FRAME_HDR: usize = 13;

/// The contents of an item: host, key and value.
pub open spec fn item(t: (String, String, String)) -> (Seq<char>, Seq<char>, Seq<char>) {
    (t.0@, t.1@, t.2@)
}

/// The contents of a sequence of items.
pub open spec fn items_of(s: Seq<(String, String, String)>) -> Seq<
    (Seq<char>, Seq<char>, Seq<char>),
> {
    s.map_values(|t: (String, String, String)| item(t))
}

/// An item as a JSON object.
pub open spec fn item_json(t: (Seq<char>, Seq<char>, Seq<char>)) -> Seq<char> {
    "{\"host\":\""@ + json::escaped(t.0) + "\",\"key\":\""@ + json::escaped(t.1)
        + "\",\"value\":\""@ + json::escaped(t.2) + "\"}"@
}

/// The sender request for the items, as JSON.
pub open spec fn sender_json(items: Seq<(Seq<char>, Seq<char>, Seq<char>)>) -> Seq<char> {
    "{\"request\":\"sender data\",\"data\":["@ + text::joined(
        items.map_values(|t: (Seq<char>, Seq<char>, Seq<char>)| item_json(t)),
        seq![','],
    ) + "]}"@
}

fn push_item(s: &mut String, host: &str, key: &str, value: &str)
    ensures
        final(s)@ == old(s)@ + item_json((host@, key@, value@)),
{
    s.append("{\"host\":\"");
    json::json_escape(host, s);
    s.append("\",\"key\":\"");
    json::json_escape(key, s);
    s.append("\",\"value\":\"");
    json::json_escape(value, s);
    s.append("\"}");
    assert(s@ =~= old(s)@ + item_json((host@, key@, value@)));
}

/// Builds the sender request for `items` of host, key and value.
pub fn build_sender_json(items: &[(String, String, String)]) -> (s: String)
    ensures
        s@ == sender_json(items_of(items@)),
{
    let mut s = String::new();
    s.append("{\"request\":\"sender data\",\"data\":[");
    let ghost head = "{\"request\":\"sender data\",\"data\":["@;
    let ghost objs = items_of(items@).map_values(
        |t: (Seq<char>, Seq<char>, Seq<char>)| item_json(t),
    );
    assert(s@ =~= head + text::joined(objs.take(0), seq![',']));
    for i in 0..items.len()
        invariant
            objs == items_of(items@).map_values(
                |t: (Seq<char>, Seq<char>, Seq<char>)| item_json(t),
            ),
            s@ == head + text::joined(objs.take(i as int), seq![',']),
    {
        assert(objs.take(i + 1).drop_last() =~= objs.take(i as int));
        if i > 0 {
            s.push(',');
        }
        push_item(&mut s, items[i].0.as_str(), items[i].1.as_str(), items[i].2.as_str());
        assert(s@ =~= head + text::joined(objs.take(i + 1), seq![',']));
    }
    assert(objs.take(objs.len() as int) =~= objs);
    s.append("]}");
    assert(s@ =~= sender_json(items_of(items@)));
    s
}

/// A frame: the protocol's mark, the length of the payload on eight little-endian bytes,
/// and the payload in UTF-8.
pub open spec fn frame(payload: Seq<char>) -> Seq<u8> {
    let data = vstd::utf8::encode_utf8(payload);
    seq![0x5au8, 0x42u8, 0x58u8, 0x44u8, 1u8] + bytes::le(data.len(), 8) + data
}

/// Frames a payload.
pub fn frame_payload(payload: &str) -> (r: Vec<u8>)
    ensures
        r@ == frame(payload@),
{
    let data = payload.as_bytes();
    let mut r: Vec<u8> = Vec::new();
    r.push(0x5a);
    r.push(0x42);
    r.push(0x58);
    r.push(0x44);
    r.push(1);
    bytes::push_le(&mut r, data.len() as u128, 8);
    bytes::push_all(&mut r, data);
    assert(r@ =~= frame(payload@));
    r
}

/// The frame that carries `items` to the server.
pub fn sender_frame(items: &[(String, String, String)]) -> (r: Vec<u8>)
    ensures
        r@ == frame(sender_json(items_of(items@))),
{
    let payload = build_sender_json(items);
    frame_payload(payload.as_str())
}

/// Whether a frame begins with the mark `ZBXD`.
pub open spec fn marked(hdr: Seq<u8>) -> bool {
    hdr.len() >= 4 && hdr[0] == 0x5a && hdr[1] == 0x42 && hdr[2] == 0x58 && hdr[3] == 0x44
}

/// How much of the reply with header `hdr` is read: the length that it announces, as far as
/// the machine can count, but no more than [`REPLY_MAX`].
pub open spec fn reply_len_spec(hdr: Seq<u8>) -> usize {
    let announced = bytes::le_value(hdr.subrange(5, 13)) % (usize::MAX as nat + 1);
    if announced < REPLY_MAX {
        announced as usize
    } else {
        REPLY_MAX
    }
}

/// Checks the header of a reply and says how many bytes of it to read.
pub fn reply_len(hdr: &[u8]) -> (r: Result<usize, String>)
    requires
        hdr.len() >= FRAME_HDR,
    ensures
        marked(hdr@) ==> r == Ok::<usize, String>(reply_len_spec(hdr@)),
        !marked(hdr@) ==> (r matches Err(e) && e@ == "bad response header"@),
{
    if hdr[0] != 0x5a || hdr[1] != 0x42 || hdr[2] != 0x58 || hdr[3] != 0x44 {
        return Err("bad response header".to_owned());
    }
    let word: u64 = bytes::read_le(hdr, 5, 8);
    let announced: u128 = word as u128 % (usize::MAX as u128 + 1);
    if announced < REPLY_MAX as u128 {
        Ok(announced as usize)
    } else {
        Ok(REPLY_MAX)
    }
}

/// What `String::from_utf8_lossy` makes of bytes.
pub uninterp spec fn lossy(bytes: Seq<u8>) -> Seq<char>;

/// `String::from_utf8_lossy` reads bytes as UTF-8 and puts replacement characters where they
/// are not; its result depends on the bytes alone, and valid UTF-8 is decoded as it is. Where
/// replacement characters go is left unsaid.
#[verifier::external_body]
fn decode_lossy(bytes: &[u8]) -> (r: String)
    ensures
        r@ == lossy(bytes@),
        vstd::utf8::valid_utf8(bytes@) ==> r@ == vstd::utf8::decode_utf8(bytes@),
{
    String::from_utf8_lossy(bytes).into_owned()
}

/// What a reply reports: its top-level field `info`, or all of it where that is missing.
pub open spec fn info_of(reply: Seq<char>) -> Seq<char> {
    match json::top_field(reply, "info"@) {
        Some(v) => v,
        None => reply,
    }
}

/// What the text of a reply reports.
pub fn reply_info(reply: &str) -> (r: String)
    ensures
        r@ == info_of(reply@),
{
    match json::extract_json_string(reply, "info") {
        Some(v) => v,
        None => reply.to_owned(),
    }
}

/// What the body of a reply reports.
pub fn body_info(body: &[u8]) -> (r: String)
    ensures
        r@ == info_of(lossy(body@)),
        vstd::utf8::valid_utf8(body@) ==> r@ == info_of(vstd::utf8::decode_utf8(body@)),
{
    let reply = decode_lossy(body);
    reply_info(reply.as_str())
}

/// The address of the server: the standard port is added where none is given.
pub open spec fn server_addr_spec(server: Seq<char>) -> Seq<char> {
    if server.contains(':') {
        server
    } else {
        server + ":10051"@
    }
}

/// The address to connect to.
pub fn server_addr(server: &str) -> (r: String)
    ensures
        r@ == server_addr_spec(server@),
{
    let chars = text::chars_of(server);
    let mut r = server.to_owned();
    for i in 0..chars.len()
        invariant
            chars@ == server@,
            r@ == server@,
            forall|k: int| 0 <= k < i ==> chars@[k] != ':',
    {
        if chars[i] == ':' {
            assert(server@.contains(chars@[i as int]));
            return r;
        }
    }
    r.append(":10051");
    r
}

/// Items per connection: the batch, or all of them (at least one) where it is 0.
pub open spec fn chunk_size(n: nat, batch: nat) -> nat {
    if batch > 0 {
        batch
    } else if n > 0 {
        n
    } else {
        1
    }
}

/// The ranges of at most `chunk` items from `from` to `n`.
pub open spec fn chunks(n: nat, chunk: nat, from: nat) -> Seq<(usize, usize)>
    decreases n - from,
{
    if from >= n || chunk == 0 {
        Seq::empty()
    } else {
        let to = if from + chunk < n {
            from + chunk
        } else {
            n
        };
        seq![(from as usize, to as usize)] + chunks(n, chunk, to)
    }
}

/// Cuts `n` items into the ranges that go over one connection each.
pub fn chunk_ranges(n: usize, batch: usize) -> (r: Vec<(usize, usize)>)
    ensures
        r@ == chunks(n as nat, chunk_size(n as nat, batch as nat), 0),
{
    let chunk: usize = if batch > 0 {
        batch
    } else if n > 0 {
        n
    } else {
        1
    };
    let mut r: Vec<(usize, usize)> = Vec::new();
    let mut from: usize = 0;
    let ghost all = chunks(n as nat, chunk as nat, 0);
    assert(r@ + all =~= all);
    while from < n
        invariant
            from <= n,
            chunk > 0,
            r@ + chunks(n as nat, chunk as nat, from as nat) == all,
        decreases n - from,
    {
        let to: usize = if n - from > chunk {
            from + chunk
        } else {
            n
        };
        let ghost before = r@;
        r.push((from, to));
        assert(r@ + chunks(n as nat, chunk as nat, to as nat) =~= before + (seq![(from, to)]
            + chunks(n as nat, chunk as nat, to as nat)));
        from = to;
    }
    assert(r@ =~= all);
    r
}

/// The summary of a push: the reply of its only connection, or their number and all of
/// them.
pub open spec fn summary_spec(infos: Seq<Seq<char>>) -> Seq<char> {
    if infos.len() == 1 {
        infos[0]
    } else {
        text::decimal(infos.len()) + " batches: "@ + text::joined(infos, " | "@)
    }
}

/// Sums up what the connections reported.
pub fn summary(infos: &[String]) -> (r: String)
    ensures
        r@ == summary_spec(text::contents(infos@)),
{
    if infos.len() == 1 {
        return infos[0].clone();
    }
    let mut r = String::new();
    text::push_numeral(&mut r, infos.len() as u64, 10);
    r.append(" batches: ");
    let all = text::join(infos, " | ");
    r.append(all.as_str());
    assert(r@ =~= summary_spec(text::contents(infos@)));
    r
}

/// A push to the server, one request and one connection for each range of items.
pub struct Push {
    /// The address to connect to.
    pub addr: String,
    /// The items of each request.
    pub ranges: Vec<(usize, usize)>,
    /// What the requests so far were answered.
    pub infos: Vec<String>,
    /// Why the push was broken off.
    pub error: Option<String>,
}

/// The contents of a [`Push`].
pub struct Pushed {
    pub addr: Seq<char>,
    pub ranges: Seq<(usize, usize)>,
    pub infos: Seq<Seq<char>>,
    pub error: Option<Seq<char>>,
}

impl View for Push {
    type V = Pushed;

    open spec fn view(&self) -> Pushed {
        Pushed {
            addr: self.addr@,
            ranges: self.ranges@,
            infos: text::contents(self.infos@),
            error: match self.error {
                Some(e) => Some(e@),
                None => None,
            },
        }
    }
}

/// Whether the ranges lie within `n` items.
pub open spec fn within(ranges: Seq<(usize, usize)>, n: nat) -> bool {
    forall|k: int| 0 <= k < ranges.len() ==> (#[trigger] ranges[k]).0 <= ranges[k].1 <= n
}

/// The request that comes next: the items of the first range that is not answered yet. After a
/// failure there is none.
pub open spec fn next_request(
    p: Pushed,
    items: Seq<(Seq<char>, Seq<char>, Seq<char>)>,
) -> Option<Seq<u8>> {
    if p.error is None && p.infos.len() < p.ranges.len() {
        let (from, to) = p.ranges[p.infos.len() as int];
        Some(frame(sender_json(items.subrange(from as int, to as int))))
    } else {
        None
    }
}

impl Push {
    /// A push of `n` items in batches, see [`chunk_size`].
    pub fn new(server: &str, n: usize, batch: usize) -> (p: Push)
        ensures
            p@ == (Pushed {
                addr: server_addr_spec(server@),
                ranges: chunks(n as nat, chunk_size(n as nat, batch as nat), 0),
                infos: Seq::empty(),
                error: None,
            }),
            within(p@.ranges, n as nat),
    {
        let p = Push {
            addr: server_addr(server),
            ranges: chunk_ranges(n, batch),
            infos: Vec::new(),
            error: None,
        };
        proof {
            assert(p@.infos =~= Seq::empty());
            assert forall|k: int| 0 <= k < p@.ranges.len() implies (#[trigger] p@.ranges[k]).0
                <= p@.ranges[k].1 <= n by {
                law_chunks_cover_all_items(n, batch, k);
            }
        }
        p
    }

    /// The frame of the next request, if there is one.
    pub fn request(&self, items: &[(String, String, String)]) -> (r: Option<Vec<u8>>)
        requires
            within(self@.ranges, items@.len()),
        ensures
            match (r, next_request(self@, items_of(items@))) {
                (Some(a), Some(b)) => a@ == b,
                (None, None) => true,
                _ => false,
            },
    {
        let k: usize = self.infos.len();
        if self.error.is_some() || k >= self.ranges.len() {
            return None;
        }
        let (from, to): (usize, usize) = self.ranges[k];
        assert(self@.ranges[k as int].0 <= self@.ranges[k as int].1);
        let group = vstd::slice::slice_subrange(items, from, to);
        assert(items_of(group@) =~= items_of(items@).subrange(from as int, to as int));
        Some(sender_frame(group))
    }

    /// Notes the body of the reply to the last request.
    pub fn answered(&mut self, body: &[u8])
        ensures
            final(self)@ == (Pushed {
                infos: old(self)@.infos.push(info_of(lossy(body@))),
                ..old(self)@
            }),
            vstd::utf8::valid_utf8(body@) ==> final(self)@.infos == old(self)@.infos.push(
                info_of(vstd::utf8::decode_utf8(body@)),
            ),
    {
        let info = body_info(body);
        self.infos.push(info);
        assert(self@.infos =~= old(self)@.infos.push(info@));
    }

    /// Breaks the push off: the last request failed. The earlier ones are committed.
    pub fn failed(&mut self, e: &str)
        ensures
            final(self)@ == (Pushed { error: Some(e@), ..old(self)@ }),
    {
        self.error = Some(e.to_owned());
    }

    /// What the push came to: the summary of the replies, see [`summary`], or why it failed.
    pub fn result(&self) -> (r: Result<String, String>)
        ensures
            match (r, self@.error) {
                (Ok(info), None) => info@ == summary_spec(self@.infos),
                (Err(e), Some(m)) => e@ == m,
                _ => false,
            },
    {
        match &self.error {
            Some(e) => Err(e.clone()),
            None => Ok(summary(self.infos.as_slice())),
        }
    }
}

/// A failed request ends the push: no request comes after it, and what was answered before
/// stays.
pub proof fn law_failure_ends_the_push(
    p: Pushed,
    e: Seq<char>,
    items: Seq<(Seq<char>, Seq<char>, Seq<char>)>,
)
    ensures
        next_request(Pushed { error: Some(e), ..p }, items) is None,
        (Pushed { error: Some(e), ..p }).infos == p.infos,
{
}

/// The items of the ranges, one range after the other.
pub open spec fn carried<A>(items: Seq<A>, ranges: Seq<(usize, usize)>) -> Seq<A>
    decreases ranges.len(),
{
    if ranges.len() == 0 {
        Seq::empty()
    } else {
        items.subrange(ranges[0].0 as int, ranges[0].1 as int) + carried(items, ranges.skip(1))
    }
}

/// The requests of a push carry all items in order, each in one request.
pub proof fn law_requests_carry_all_items<A>(items: Seq<A>, batch: usize)
    requires
        items.len() <= usize::MAX,
    ensures
        carried(items, chunks(items.len(), chunk_size(items.len(), batch as nat), 0)) == items,
{
    lemma_carried(items, chunk_size(items.len(), batch as nat), 0);
    assert(items.skip(0) =~= items);
}

proof fn lemma_carried<A>(items: Seq<A>, chunk: nat, from: nat)
    requires
        items.len() <= usize::MAX,
        chunk > 0,
        from <= items.len(),
    ensures
        carried(items, chunks(items.len(), chunk, from)) == items.skip(from as int),
    decreases items.len() - from,
{
    let n = items.len();
    let c = chunks(n, chunk, from);
    if from < n {
        let to = if from + chunk < n {
            from + chunk
        } else {
            n
        };
        lemma_carried(items, chunk, to);
        assert(c.skip(1) =~= chunks(n, chunk, to));
        assert(items.subrange(from as int, to as int) + items.skip(to as int) =~= items.skip(
            from as int,
        ));
    } else {
        assert(carried(items, c) =~= items.skip(from as int));
    }
}

/// An input line of `zabbix_sender`: the quoted host, the key and the value.
pub open spec fn item_line(t: (Seq<char>, Seq<char>, Seq<char>)) -> Seq<char> {
    "\""@ + t.0 + "\" "@ + t.1 + " "@ + t.2 + "\n"@
}

/// The lines of the items.
pub open spec fn item_lines_spec(items: Seq<(Seq<char>, Seq<char>, Seq<char>)>) -> Seq<char> {
    text::joined(
        items.map_values(|t: (Seq<char>, Seq<char>, Seq<char>)| item_line(t)),
        Seq::empty(),
    )
}

/// The items as input lines of `zabbix_sender`.
pub fn item_lines(items: &[(String, String, String)]) -> (s: String)
    ensures
        s@ == item_lines_spec(items_of(items@)),
{
    let mut s = String::new();
    let ghost none = Seq::<char>::empty();
    let ghost all = items_of(items@).map_values(
        |t: (Seq<char>, Seq<char>, Seq<char>)| item_line(t),
    );
    for i in 0..items.len()
        invariant
            none == Seq::<char>::empty(),
            all == items_of(items@).map_values(
                |t: (Seq<char>, Seq<char>, Seq<char>)| item_line(t),
            ),
            s@ == text::joined(all.take(i as int), none),
    {
        let ghost before = s@;
        assert(all.take(i + 1).drop_last() =~= all.take(i as int));
        s.append("\"");
        s.append(items[i].0.as_str());
        s.append("\" ");
        s.append(items[i].1.as_str());
        s.append(" ");
        s.append(items[i].2.as_str());
        s.append("\n");
        assert(all.take(i + 1).last() == item_line(item(items@[i as int])));
        assert(s@ =~= before + item_line(item(items@[i as int])));
        assert(before + none =~= before);
    }
    assert(all.take(all.len() as int) =~= all);
    s
}

/// What is written about a push.
pub struct Outcome {
    /// For standard output.
    pub out: String,
    /// For standard error.
    pub err: String,
}

/// What is written about a push: the summary, or why it failed and the items that would
/// otherwise be lost.
pub fn push_outcome(
    server: &str,
    result: Result<String, String>,
    items: &[(String, String, String)],
) -> (r: Outcome)
    ensures
        match result {
            Ok(info) => r.out@.len() == 0 && r.err@ == "fastping: zabbix "@ + server@ + ": "@
                + info@ + "\n"@,
            Err(e) => r.out@ == item_lines_spec(items_of(items@)) && r.err@
                == "fastping: zabbix send to "@ + server@ + " failed: "@ + e@ + "\n"@,
        },
{
    match result {
        Ok(info) => {
            let mut err = "fastping: zabbix ".to_owned();
            err.append(server);
            err.append(": ");
            err.append(info.as_str());
            err.append("\n");
            Outcome { out: String::new(), err }
        },
        Err(e) => {
            let mut err = "fastping: zabbix send to ".to_owned();
            err.append(server);
            err.append(" failed: ");
            err.append(e.as_str());
            err.append("\n");
            Outcome { out: item_lines(items), err }
        },
    }
}

/// A frame is marked, announces the length of its payload and carries it: reading it back
/// gives the payload.
pub proof fn law_frame_reads_back(payload: Seq<char>)
    requires
        vstd::utf8::encode_utf8(payload).len() < 0x1_0000_0000_0000_0000,
    ensures
        marked(frame(payload)),
        bytes::le_value(frame(payload).subrange(5, 13)) == vstd::utf8::encode_utf8(payload).len(),
        frame(payload).len() == FRAME_HDR + vstd::utf8::encode_utf8(payload).len(),
        vstd::utf8::decode_utf8(frame(payload).skip(13)) == payload,
{
    let data = vstd::utf8::encode_utf8(payload);
    let f = frame(payload);
    bytes::lemma_capacities();
    bytes::lemma_le(data.len(), 8);
    assert(f.subrange(5, 13) =~= bytes::le(data.len(), 8));
    assert(f.skip(13) =~= data);
    vstd::utf8::encode_utf8_decode_utf8(payload);
}

/// The ranges lie one after the other without gaps, from the first item to the last, and
/// none is empty. All but the last hold exactly a chunk, and the last no more than that.
pub proof fn law_chunks_cover_all_items(n: usize, batch: usize, k: int)
    requires
        0 <= k < chunks(n as nat, chunk_size(n as nat, batch as nat), 0).len(),
    ensures
        ({
            let c = chunks(n as nat, chunk_size(n as nat, batch as nat), 0);
            &&& c[0].0 == 0
            &&& c.last().1 == n
            &&& c[k].0 < c[k].1 <= n
            &&& c[k].1 - c[k].0 <= chunk_size(n as nat, batch as nat)
            &&& k + 1 < c.len() ==> c[k].1 - c[k].0 == chunk_size(n as nat, batch as nat)
            &&& k + 1 < c.len() ==> c[k + 1].0 == c[k].1
        }),
{
    lemma_chunks(n as nat, chunk_size(n as nat, batch as nat), 0, k);
}

proof fn lemma_chunks(n: nat, chunk: nat, from: nat, k: int)
    requires
        n <= usize::MAX,
        chunk > 0,
        from < n,
        0 <= k < chunks(n, chunk, from).len(),
    ensures
        ({
            let c = chunks(n, chunk, from);
            &&& c[0].0 == from
            &&& c.last().1 == n
            &&& c[k].0 < c[k].1 <= n
            &&& c[k].1 - c[k].0 <= chunk
            &&& k + 1 < c.len() ==> c[k].1 - c[k].0 == chunk
            &&& k + 1 < c.len() ==> c[k + 1].0 == c[k].1
        }),
    decreases n - from,
{
    let c = chunks(n, chunk, from);
    let to = if from + chunk < n {
        from + chunk
    } else {
        n
    };
    let rest = chunks(n, chunk, to);
    assert(c =~= seq![(from as usize, to as usize)] + rest);
    if to < n {
        assert(rest.len() > 0);
        lemma_chunks(
            n,
            chunk,
            to,
            if k > 0 {
                k - 1
            } else {
                0
            },
        );
        assert(c.last() == rest.last());
        if k > 0 {
            assert(c[k] == rest[k - 1]);
            if k + 1 < c.len() {
                assert(c[k + 1] == rest[k]);
            }
        } else {
            assert(c[1] == rest[0]);
        }
    }
}

/// An item as a JSON value: an object with its host, its key and its value as texts.
pub open spec fn item_value(t: (Seq<char>, Seq<char>, Seq<char>)) -> json::Value {
    json::Value::Object(
        seq![
            json::Field { name: "host"@, value: json::Value::Text(t.0) },
            json::Field { name: "key"@, value: json::Value::Text(t.1) },
            json::Field { name: "value"@, value: json::Value::Text(t.2) },
        ],
    )
}

/// A sender request as a JSON value.
pub open spec fn request_value(items: Seq<(Seq<char>, Seq<char>, Seq<char>)>) -> json::Value {
    json::Value::Object(
        seq![
            json::Field { name: "request"@, value: json::Value::Text("sender data"@) },
            json::Field {
                name: "data"@,
                value: json::Value::List(
                    items.map_values(|t: (Seq<char>, Seq<char>, Seq<char>)| item_value(t)),
                ),
            },
        ],
    )
}

proof fn lemma_plain_names()
    ensures
        json::escaped("host"@) == "host"@,
        json::escaped("key"@) == "key"@,
        json::escaped("value"@) == "value"@,
        json::escaped("request"@) == "request"@,
        json::escaped("data"@) == "data"@,
        json::escaped("sender data"@) == "sender data"@,
{
    reveal_strlit("host");
    reveal_strlit("key");
    reveal_strlit("value");
    reveal_strlit("request");
    reveal_strlit("data");
    reveal_strlit("sender data");
    json::law_plain_text_stands_as_it_is("host"@);
    json::law_plain_text_stands_as_it_is("key"@);
    json::law_plain_text_stands_as_it_is("value"@);
    json::law_plain_text_stands_as_it_is("request"@);
    json::law_plain_text_stands_as_it_is("data"@);
    json::law_plain_text_stands_as_it_is("sender data"@);
}

/// The text of an item with its quoted parts set apart.
#[verifier::spinoff_prover]
#[verifier::rlimit(40)]
proof fn lemma_item_text(a: Seq<char>, b: Seq<char>, c: Seq<char>)
    ensures
        ({
            let q = seq!['"'];
            let w2 = q + "value"@ + q + (seq![':'] + (q + c + q));
            let w1 = q + "key"@ + q + (seq![':'] + (q + b + q + (seq![','] + w2)));
            let w0 = q + "host"@ + q + (seq![':'] + (q + a + q + (seq![','] + w1)));
            "{\"host\":\""@ + a + "\",\"key\":\""@ + b + "\",\"value\":\""@ + c + "\"}"@ == seq![
                '{',
            ] + w0 + seq!['}']
        }),
{
    reveal_strlit("{\"host\":\"");
    reveal_strlit("\",\"key\":\"");
    reveal_strlit("\",\"value\":\"");
    reveal_strlit("\"}");
    reveal_strlit("host");
    reveal_strlit("key");
    reveal_strlit("value");
    assert("{\"host\":\""@ =~= seq!['{', '"'] + "host"@ + seq!['"', ':', '"']);
    assert("\",\"key\":\""@ =~= seq!['"', ',', '"'] + "key"@ + seq!['"', ':', '"']);
    assert("\",\"value\":\""@ =~= seq!['"', ',', '"'] + "value"@ + seq!['"', ':', '"']);
    assert("\"}"@ =~= seq!['"', '}']);
    let q = seq!['"'];
    let w2 = q + "value"@ + q + (seq![':'] + (q + c + q));
    let w1 = q + "key"@ + q + (seq![':'] + (q + b + q + (seq![','] + w2)));
    let w0 = q + "host"@ + q + (seq![':'] + (q + a + q + (seq![','] + w1)));
    assert("{\"host\":\""@ + a + "\",\"key\":\""@ + b + "\",\"value\":\""@ + c + "\"}"@
        =~= seq!['{'] + w0 + seq!['}']);
}

#[verifier::spinoff_prover]
proof fn lemma_item_json(t: (Seq<char>, Seq<char>, Seq<char>))
    ensures
        item_json(t) == json::written(item_value(t)),
{
    lemma_plain_names();
    let h = json::Field { name: "host"@, value: json::Value::Text(t.0) };
    let k = json::Field { name: "key"@, value: json::Value::Text(t.1) };
    let v = json::Field { name: "value"@, value: json::Value::Text(t.2) };
    let f = seq![h, k, v];
    let f1 = f.subrange(1, 3);
    let f2 = f1.subrange(1, 2);
    assert(f1 =~= seq![k, v]);
    assert(f2 =~= seq![v]);
    let w2 = json::in_quotes(v.name) + (seq![':'] + json::in_quotes(t.2));
    let w1 = json::in_quotes(k.name) + (seq![':'] + (json::in_quotes(t.1) + (seq![','] + w2)));
    let w0 = json::in_quotes(h.name) + (seq![':'] + (json::in_quotes(t.0) + (seq![','] + w1)));
    assert(json::written(h.value) == json::in_quotes(t.0));
    assert(json::written(k.value) == json::in_quotes(t.1));
    assert(json::written(v.value) == json::in_quotes(t.2));
    assert(json::written_fields(f2) == w2);
    assert(json::written_fields(f1) == w1);
    assert(json::written_fields(f) == w0);
    assert(json::written(item_value(t)) == seq!['{'] + w0 + seq!['}']);
    lemma_item_text(json::escaped(t.0), json::escaped(t.1), json::escaped(t.2));
}

proof fn lemma_items_json(items: Seq<(Seq<char>, Seq<char>, Seq<char>)>)
    ensures
        text::joined(
            items.map_values(|t: (Seq<char>, Seq<char>, Seq<char>)| item_json(t)),
            seq![','],
        ) == json::written_list(
            items.map_values(|t: (Seq<char>, Seq<char>, Seq<char>)| item_value(t)),
        ),
    decreases items.len(),
{
    let texts = items.map_values(|t: (Seq<char>, Seq<char>, Seq<char>)| item_json(t));
    let values = items.map_values(|t: (Seq<char>, Seq<char>, Seq<char>)| item_value(t));
    let comma = seq![','];
    if items.len() == 0 {
        assert(text::joined(texts, comma) =~= json::written_list(values));
    } else {
        lemma_item_json(items[0]);
        assert(values[0] == item_value(items[0]));
        assert(texts[0] == item_json(items[0]));
        text::law_joining_goes_piece_by_piece(seq![texts[0]], seq![texts[0]], comma);
        if items.len() == 1 {
            assert(texts =~= seq![texts[0]]);
        } else {
            let more = items.skip(1);
            lemma_items_json(more);
            let mt = more.map_values(|t: (Seq<char>, Seq<char>, Seq<char>)| item_json(t));
            let mv = more.map_values(|t: (Seq<char>, Seq<char>, Seq<char>)| item_value(t));
            assert(texts =~= seq![texts[0]] + mt);
            assert(values.subrange(1, values.len() as int) =~= mv);
            text::law_joining_goes_piece_by_piece(seq![texts[0]], mt, comma);
            assert(json::written_list(values) =~= text::joined(texts, comma));
        }
    }
}

/// The sender request is the JSON object that the protocol asks for: the request and, as its data,
/// the list of all items in order, each with its host, its key and its value.
pub proof fn law_request_is_the_json_of_its_items(
    items: Seq<(Seq<char>, Seq<char>, Seq<char>)>,
)
    ensures
        sender_json(items) == json::written(request_value(items)),
{
    lemma_plain_names();
    lemma_items_json(items);
    let values = items.map_values(|t: (Seq<char>, Seq<char>, Seq<char>)| item_value(t));
    let r = json::Field { name: "request"@, value: json::Value::Text("sender data"@) };
    let d = json::Field { name: "data"@, value: json::Value::List(values) };
    let f = seq![r, d];
    let f1 = f.subrange(1, 2);
    assert(f1 =~= seq![d]);
    let list = seq!['['] + json::written_list(values) + seq![']'];
    let w1 = json::in_quotes(d.name) + (seq![':'] + list);
    let w0 = json::in_quotes(r.name) + (seq![':'] + (json::in_quotes("sender data"@) + (seq![',']
        + w1)));
    assert(json::written(d.value) == list);
    assert(json::written(r.value) == json::in_quotes("sender data"@));
    assert(json::written_fields(f1) == w1);
    assert(json::written_fields(f) == w0);
    assert(json::written(request_value(items)) == seq!['{'] + w0 + seq!['}']);
    reveal_strlit("{\"request\":\"sender data\",\"data\":[");
    reveal_strlit("]}");
    reveal_strlit("request");
    reveal_strlit("data");
    reveal_strlit("sender data");
    assert("]}"@ =~= seq![']', '}']);
    assert("{\"request\":\"sender data\",\"data\":["@ =~= seq!['{', '"'] + "request"@ + seq![
        '"',
        ':',
        '"',
    ] + "sender data"@ + seq!['"', ',', '"'] + "data"@ + seq!['"', ':', '[']);
    assert(sender_json(items) =~= seq!['{'] + w0 + seq!['}']);
}

/// Of a reply as much is read as it announces, up to 65536 bytes, and a header is taken exactly if
/// it begins with the letters of the protocol.
pub proof fn law_replies_are_read_as_announced(hdr: Seq<u8>)
    requires
        hdr.len() >= 13,
    ensures
        ({
            let n = bytes::le_value(hdr.subrange(5, 13));
            &&& n <= 65536 ==> reply_len_spec(hdr) == n
            &&& 65536 < n <= usize::MAX ==> reply_len_spec(hdr) == 65536
            &&& reply_len_spec(hdr) <= 65536
        }),
        marked(hdr) <==> hdr.take(4) == seq![90u8, 66u8, 88u8, 68u8],
{
    let n = bytes::le_value(hdr.subrange(5, 13));
    if n <= usize::MAX {
        vstd::arithmetic::div_mod::lemma_small_mod(n, usize::MAX as nat + 1);
    }
    if marked(hdr) {
        assert(hdr.take(4) =~= seq![90u8, 66u8, 88u8, 68u8]);
    } else if hdr.take(4) == seq![90u8, 66u8, 88u8, 68u8] {
        assert(hdr[0] == hdr.take(4)[0] && hdr[1] == hdr.take(4)[1] && hdr[2] == hdr.take(4)[2]
            && hdr[3] == hdr.take(4)[3]);
    }
}

/// A reply in JSON reports its first field `info` if that is a text, and a reply without one
/// reports itself.
pub proof fn law_reply_reports_its_info(f: Seq<json::Field>)
    requires
        json::writable(json::Value::Object(f)),
        json::first_text(f, seq!['i', 'n', 'f', 'o']) matches Some(t) ==> json::printable(t),
    ensures
        ({
            let s = json::written(json::Value::Object(f));
            info_of(s) == match json::first_text(f, seq!['i', 'n', 'f', 'o']) {
                Some(t) => t,
                None => s,
            }
        }),
{
    reveal_strlit("info");
    assert("info"@ =~= seq!['i', 'n', 'f', 'o']);
    json::law_plain_text_stands_as_it_is("info"@);
    json::law_written_field_is_read_back(f, "info"@);
}

/// A server is called at its own port where it names one, and else at port 10051.
pub proof fn law_server_has_a_port(host: Seq<char>, port: Seq<char>)
    requires
        !host.contains(':'),
    ensures
        server_addr_spec(host) == host + seq![':', '1', '0', '0', '5', '1'],
        server_addr_spec(host + seq![':'] + port) == host + seq![':'] + port,
{
    reveal_strlit(":10051");
    assert(":10051"@ =~= seq![':', '1', '0', '0', '5', '1']);
    let s = host + seq![':'] + port;
    assert(s[host.len() as int] == ':');
    assert(s.contains(s[host.len() as int]));
}

/// One reply is the summary; of several all are told, in order, after their number.
pub proof fn law_summary_tells_every_reply(infos: Seq<Seq<char>>)
    ensures
        infos.len() == 1 ==> summary_spec(infos) == infos[0],
        infos.len() != 1 ==> summary_spec(infos) == text::decimal(infos.len()) + seq![
            ' ',
            'b',
            'a',
            't',
            'c',
            'h',
            'e',
            's',
            ':',
            ' ',
        ] + text::joined(infos, seq![' ', '|', ' ']),
{
    reveal_strlit(" batches: ");
    reveal_strlit(" | ");
    assert(" batches: "@ =~= seq![' ', 'b', 'a', 't', 'c', 'h', 'e', 's', ':', ' ']);
    assert(" | "@ =~= seq![' ', '|', ' ']);
}

/// Every item has its line, in order: the host in quotes, the key and the value, with one space
/// between.
pub proof fn law_every_item_has_its_line(
    items: Seq<(Seq<char>, Seq<char>, Seq<char>)>,
    t: (Seq<char>, Seq<char>, Seq<char>),
)
    ensures
        item_lines_spec(Seq::empty()) == Seq::<char>::empty(),
        item_lines_spec(items.push(t)) == item_lines_spec(items) + (seq!['"'] + t.0 + seq!['"', ' ']
            + t.1 + seq![' '] + t.2 + seq!['\n']),
{
    let line = |t: (Seq<char>, Seq<char>, Seq<char>)| item_line(t);
    let none = Seq::<char>::empty();
    let a = items.map_values(line);
    let b = items.push(t).map_values(line);
    reveal_strlit("\"");
    reveal_strlit("\" ");
    reveal_strlit(" ");
    reveal_strlit("\n");
    assert("\""@ =~= seq!['"']);
    assert("\" "@ =~= seq!['"', ' ']);
    assert(" "@ =~= seq![' ']);
    assert("\n"@ =~= seq!['\n']);
    assert(b.drop_last() =~= a);
    assert(b.last() == item_line(t));
    assert(text::joined(a, none) + none =~= text::joined(a, none));
    assert(Seq::<(Seq<char>, Seq<char>, Seq<char>)>::empty().map_values(line) =~= Seq::empty());
    assert(item_lines_spec(Seq::empty()) =~= none);
    if items.len() == 0 {
        assert(a =~= Seq::<Seq<char>>::empty());
        assert(text::joined(a, none) =~= none);
    }
    assert(item_lines_spec(items.push(t)) =~= text::joined(a, none) + item_line(t));
}

/// With a batch given, each connection takes up where the one before it stopped and carries that
/// many items, the last one what is left; without one, all items go over one connection. Where
/// there are no items, there is no connection.
pub proof fn law_connections_carry_a_batch_each(n: usize, batch: usize, k: int)
    requires
        0 <= k,
    ensures
        ({
            let c = chunks(n as nat, chunk_size(n as nat, batch as nat), 0);
            &&& n == 0 ==> c.len() == 0
            &&& n > 0 && batch == 0 ==> c == seq![(0usize, n)]
            &&& batch > 0 ==> (k < c.len() <==> k * batch < n)
            &&& batch > 0 && k < c.len() ==> c[k].0 == k * batch && c[k].1 == if (k + 1) * batch
                < n {
                (k + 1) * batch
            } else {
                n as int
            }
        }),
{
    if batch > 0 {
        lemma_chunk_places(n as nat, batch as nat, 0, k);
    } else if n > 0 {
        assert(chunks(n as nat, n as nat, n as nat) =~= Seq::empty());
        assert(chunks(n as nat, n as nat, 0) =~= seq![(0usize, n)]);
    }
}

proof fn lemma_chunk_places(n: nat, batch: nat, from: nat, k: int)
    requires
        0 <= k,
        0 < batch,
        n <= usize::MAX,
        from <= n,
    ensures
        ({
            let c = chunks(n, batch, from);
            &&& k < c.len() <==> from + k * batch < n
            &&& k < c.len() ==> c[k].0 == from + k * batch && c[k].1 == if from + (k + 1) * batch
                < n {
                from + (k + 1) * batch
            } else {
                n as int
            }
        }),
    decreases n - from,
{
    let b = batch as int;
    assert((k + 1) * b == k * b + b) by (nonlinear_arith);
    assert(k * b >= 0) by (nonlinear_arith)
        requires
            k >= 0,
            b > 0,
    ;
    if from < n {
        let to = if from + batch < n {
            from + batch
        } else {
            n
        };
        if k > 0 {
            lemma_chunk_places(n, batch, to, k - 1);
            assert((k - 1) * b == k * b - b) by (nonlinear_arith);
            assert((k - 1) * b >= 0) by (nonlinear_arith)
                requires
                    k >= 1,
                    b > 0,
            ;
            assert(chunks(n, batch, from)[k] == chunks(n, batch, to)[k - 1] || k >= chunks(
                n,
                batch,
                from,
            ).len());
        }
    }
}

/// The request after `k` answers carries the items from the `k`-th batch on, in order; when the
/// last batch is answered, there is none.
pub proof fn law_next_request_carries_the_next_batch(
    n: usize,
    batch: usize,
    addr: Seq<char>,
    infos: Seq<Seq<char>>,
    items: Seq<(Seq<char>, Seq<char>, Seq<char>)>,
)
    requires
        0 < batch,
        items.len() == n,
    ensures
        ({
            let p = Pushed {
                addr,
                ranges: chunks(n as nat, chunk_size(n as nat, batch as nat), 0),
                infos,
                error: None,
            };
            let from = infos.len() * batch;
            let to = (infos.len() + 1) * batch;
            next_request(p, items) == if from >= n {
                None
            } else if to < n {
                Some(frame(sender_json(items.subrange(from, to))))
            } else {
                Some(frame(sender_json(items.skip(from))))
            }
        }),
{
    let k = infos.len() as int;
    law_connections_carry_a_batch_each(n, batch, k);
    let from = k * batch;
    if from < n {
        assert(items.skip(from) =~= items.subrange(from, n as int));
    }
}

/// A reply that is no JSON and does not hold the key in quotes is reported as it is.
pub proof fn law_other_replies_report_themselves(reply: Seq<char>)
    requires
        !crate::syntax::is_json(reply),
        forall|k: int|
            0 <= k && k + 6 <= reply.len() ==> #[trigger] reply.subrange(k, k + 6) != seq![
                '"',
                'i',
                'n',
                'f',
                'o',
                '"',
            ],
    ensures
        info_of(reply) == reply,
{
    reveal_strlit("info");
    assert(seq!['"'] + "info"@ + seq!['"'] =~= seq!['"', 'i', 'n', 'f', 'o', '"']);
    assert forall|k: int| 0 <= k && k + "info"@.len() + 2 <= reply.len() implies #[trigger] reply
        .subrange(k, k + "info"@.len() + 2) != seq!['"'] + "info"@ + seq!['"'] by {
        assert(reply.subrange(k, k + "info"@.len() + 2) == reply.subrange(k, k + 6));
    }
    json::law_loose_field_needs_its_key(reply, "info"@);
}

/// A frame begins with `ZBXD` and the byte 1; the length of the payload in bytes follows, least
/// significant byte first, and then the payload in UTF-8.
pub proof fn law_frame_layout(payload: Seq<char>)
    requires
        vstd::utf8::encode_utf8(payload).len() <= u64::MAX,
    ensures
        ({
            let f = frame(payload);
            let data = vstd::utf8::encode_utf8(payload);
            &&& f.len() == 13 + data.len()
            &&& f.take(5) == seq![90u8, 66u8, 88u8, 68u8, 1u8]
            &&& bytes::be_value(f.subrange(5, 13).reverse()) == data.len()
            &&& f.skip(13) == data
        }),
{
    let f = frame(payload);
    let data = vstd::utf8::encode_utf8(payload);
    bytes::lemma_le(data.len(), 8);
    bytes::lemma_capacities();
    assert(f.take(5) =~= seq![90u8, 66u8, 88u8, 68u8, 1u8]);
    assert(f.subrange(5, 13) =~= bytes::le(data.len(), 8));
    assert(f.skip(13) =~= data);
    bytes::law_little_endian_is_backwards(f.subrange(5, 13));
}

} // verus!
