//! What is written at the end of a sweep.
use crate::addr::IpAddr;
use crate::config;
use crate::config::{Config, HostMode, Output};
use crate::json;
use crate::results;
use crate::results::{Results, Score};
use crate::targets;
use crate::text;
use vstd::prelude::*;

verus! {

/// A piece of the report. Numbers are exact; their decimals are for the writer.
pub enum Piece {
    Text(String),
    /// Microseconds, to be written as milliseconds with three decimals.
    Millis3(i64),
    /// Microseconds, to be written as milliseconds with two decimals.
    Millis2(i64),
    /// `part / whole`, with four decimals.
    Share4 { part: usize, whole: usize },
    /// `sum_us / count` microseconds (zero without a count), to be written as seconds with
    /// six decimals.
    Seconds6 { sum_us: u128, count: usize },
}

/// The contents of a [`Piece`].
pub enum Part {
    Text(Seq<char>),
    Millis3(i64),
    Millis2(i64),
    Share4 { part: usize, whole: usize },
    Seconds6 { sum_us: u128, count: usize },
}

impl View for Piece {
    type V = Part;

    open spec fn view(&self) -> Part {
        match *self {
            Piece::Text(s) => Part::Text(s@),
            Piece::Millis3(us) => Part::Millis3(us),
            Piece::Millis2(us) => Part::Millis2(us),
            Piece::Share4 { part, whole } => Part::Share4 { part, whole },
            Piece::Seconds6 { sum_us, count } => Part::Seconds6 { sum_us, count },
        }
    }
}

/// The contents of a sequence of pieces.
pub open spec fn parts(v: Seq<Piece>) -> Seq<Part> {
    v.map_values(|p: Piece| p@)
}

/// One value of a host for Zabbix.
pub struct Item {
    pub host: String,
    pub key: String,
    pub value: Piece,
}

/// The contents of an [`Item`]: host, key and value.
impl View for Item {
    type V = (Seq<char>, Seq<char>, Part);

    open spec fn view(&self) -> (Seq<char>, Seq<char>, Part) {
        (self.host@, self.key@, self.value@)
    }
}

/// The contents of a sequence of items.
pub open spec fn entries(v: Seq<Item>) -> Seq<(Seq<char>, Seq<char>, Part)> {
    v.map_values(|i: Item| i@)
}

/// A report: text to be written, or the items for Zabbix.
pub enum Report {
    Text(Vec<Piece>),
    Items(Vec<Item>),
}

/// The sequences in order, one after the other.
pub open spec fn flat<A>(rows: Seq<Seq<A>>) -> Seq<A>
    decreases rows.len(),
{
    if rows.len() == 0 {
        Seq::empty()
    } else {
        flat(rows.drop_last()) + rows.last()
    }
}

/// The line of a host in plain output: alive with its first round trip, or down.
pub open spec fn plain_line(ip: IpAddr, t: Seq<Seq<i64>>, i: int) -> Seq<Part> {
    match results::first_reply(t, i) {
        Some(us) => seq![
            Part::Text(ip.text_spec() + " alive "@),
            Part::Millis3(us),
            Part::Text(" ms\n"@),
        ],
        None => seq![Part::Text(ip.text_spec() + " down\n"@)],
    }
}

/// Plain output.
pub open spec fn plain(targets: Seq<IpAddr>, t: Seq<Seq<i64>>) -> Seq<Part> {
    flat(Seq::new(targets.len(), |i: int| plain_line(targets[i], t, i)))
}

/// One probe in fping output: its round trip, or a dash; a space stands before all but the
/// first.
pub open spec fn fping_cell(t: Seq<Seq<i64>>, i: int, r: int) -> Seq<Part> {
    let v = if t[r][i] >= 0 {
        Part::Millis2(t[r][i])
    } else {
        Part::Text("-"@)
    };
    if r > 0 {
        seq![Part::Text(" "@), v]
    } else {
        seq![v]
    }
}

/// The line of a host in fping output: every probe.
pub open spec fn fping_line(ip: IpAddr, t: Seq<Seq<i64>>, i: int) -> Seq<Part> {
    seq![Part::Text(ip.text_spec() + " : "@)] + flat(
        Seq::new(t.len(), |r: int| fping_cell(t, i, r)),
    ) + seq![Part::Text("\n"@)]
}

/// Output in the manner of fping.
pub open spec fn fping(targets: Seq<IpAddr>, t: Seq<Seq<i64>>) -> Seq<Part> {
    flat(Seq::new(targets.len(), |i: int| fping_line(targets[i], t, i)))
}

/// The loss of a score.
pub open spec fn loss_part(s: Score) -> Part {
    Part::Share4 { part: s.lost, whole: s.probes }
}

/// The mean round trip of a score.
pub open spec fn rtt_part(s: Score) -> Part {
    Part::Seconds6 { sum_us: s.rtt_sum_us, count: s.replies }
}

/// The digit for whether a score is alive.
pub open spec fn alive_text(s: Score) -> Seq<char> {
    if s.alive == 1 {
        "1"@
    } else {
        "0"@
    }
}

/// The object of a host in JSON output; a comma stands before all but the first.
pub open spec fn json_object(ip: IpAddr, name: Seq<char>, s: Score, first: bool) -> Seq<Part> {
    let comma = if first {
        Seq::empty()
    } else {
        ","@
    };
    seq![
        Part::Text(
            comma + "{\"ip\":\""@ + json::escaped(ip.text_spec()) + "\",\"name\":\""@
                + json::escaped(name) + "\",\"alive\":"@ + alive_text(s) + ",\"loss\":"@,
        ),
        loss_part(s),
        Part::Text(",\"rtt\":"@),
        rtt_part(s),
        Part::Text("}"@),
    ]
}

/// JSON output: one array with an object for each host.
pub open spec fn json_array(
    targets: Seq<IpAddr>,
    names: Seq<Seq<char>>,
    t: Seq<Seq<i64>>,
    adaptive: bool,
) -> Seq<Part> {
    seq![Part::Text("["@)] + flat(
        Seq::new(
            targets.len(),
            |i: int|
                json_object(
                    targets[i],
                    names[i],
                    results::score_spec(t, i, adaptive),
                    i == 0,
                ),
        ),
    ) + seq![Part::Text("]\n"@)]
}

/// The items of a host: alive, loss and round-trip time.
pub open spec fn host_items(host: Seq<char>, key: Seq<char>, s: Score) -> Seq<
    (Seq<char>, Seq<char>, Part),
> {
    seq![
        (host, key + ".alive"@, Part::Text(alive_text(s))),
        (host, key + ".loss"@, loss_part(s)),
        (host, key + ".rtt"@, rtt_part(s)),
    ]
}

/// What names a host in Zabbix.
pub open spec fn zabbix_host(mode: HostMode, ip: IpAddr, name: Seq<char>) -> Seq<char> {
    match mode {
        HostMode::Ip => ip.text_spec(),
        HostMode::Resolved => name,
    }
}

/// The items for Zabbix, three for each host.
pub open spec fn zabbix_items(
    cfg: config::Settings,
    targets: Seq<IpAddr>,
    names: Seq<Seq<char>>,
    t: Seq<Seq<i64>>,
) -> Seq<(Seq<char>, Seq<char>, Part)> {
    flat(
        Seq::new(
            targets.len(),
            |i: int|
                host_items(
                    zabbix_host(cfg.zbx_host_mode, targets[i], names[i]),
                    cfg.zbx_key,
                    results::score_spec(t, i, config::adaptive(cfg)),
                ),
        ),
    )
}

fn push_text(out: &mut Vec<Piece>, s: String)
    ensures
        parts(final(out)@) == parts(old(out)@).push(Part::Text(s@)),
{
    out.push(Piece::Text(s));
    assert(parts(out@) =~= parts(old(out)@).push(Part::Text(s@)));
}

fn push_piece(out: &mut Vec<Piece>, p: Piece)
    ensures
        parts(final(out)@) == parts(old(out)@).push(p@),
{
    out.push(p);
    assert(parts(out@) =~= parts(old(out)@).push(p@));
}

/// Flattening one row more appends it.
proof fn lemma_flat_push<A>(n: nat, rows: spec_fn(int) -> Seq<A>)
    ensures
        flat(Seq::new(n + 1, rows)) == flat(Seq::new(n, rows)) + rows(n as int),
{
    assert(Seq::new(n + 1, rows).drop_last() =~= Seq::new(n, rows));
}

fn push_plain_line(out: &mut Vec<Piece>, ip: IpAddr, res: &Results, i: usize)
    requires
        res.wf(),
        i < res.n,
    ensures
        parts(final(out)@) == parts(old(out)@) + plain_line(ip, res@, i as int),
{
    let mut head = ip.text();
    match res.first_rtt(i) {
        Some(us) => {
            head.append(" alive ");
            push_text(out, head);
            push_piece(out, Piece::Millis3(us));
            push_text(out, " ms\n".to_owned());
        },
        None => {
            head.append(" down\n");
            push_text(out, head);
        },
    }
    assert(parts(out@) =~= parts(old(out)@) + plain_line(ip, res@, i as int));
}

/// Plain output: for each host its first round trip, or that it is down.
pub fn plain_report(targets: &[IpAddr], res: &Results) -> (out: Vec<Piece>)
    requires
        res.wf(),
        targets.len() <= res.n,
    ensures
        parts(out@) == plain(targets@, res@),
{
    let mut out: Vec<Piece> = Vec::new();
    let ghost row = |i: int| plain_line(targets@[i], res@, i);
    assert(parts(out@) =~= flat(Seq::new(0, row)));
    for i in 0..targets.len()
        invariant
            res.wf(),
            targets.len() <= res.n,
            row == |i: int| plain_line(targets@[i], res@, i),
            parts(out@) == flat(Seq::new(i as nat, row)),
    {
        push_plain_line(&mut out, targets[i], res, i);
        proof {
            lemma_flat_push(i as nat, row);
        }
    }
    out
}

fn push_fping_line(out: &mut Vec<Piece>, ip: IpAddr, res: &Results, i: usize)
    requires
        res.wf(),
        i < res.n,
    ensures
        parts(final(out)@) == parts(old(out)@) + fping_line(ip, res@, i as int),
{
    let mut head = ip.text();
    head.append(" : ");
    push_text(out, head);
    let ghost start = parts(out@);
    let ghost cell = |r: int| fping_cell(res@, i as int, r);
    assert(parts(out@) =~= start + flat(Seq::new(0, cell)));
    for r in 0..res.rounds
        invariant
            res.wf(),
            i < res.n,
            cell == |r: int| fping_cell(res@, i as int, r),
            parts(out@) == start + flat(Seq::new(r as nat, cell)),
    {
        let ghost before = parts(out@);
        let v: i64 = res.round(r, i);
        if r > 0 {
            push_text(out, " ".to_owned());
        }
        if v >= 0 {
            push_piece(out, Piece::Millis2(v));
        } else {
            push_text(out, "-".to_owned());
        }
        proof {
            assert(parts(out@) =~= before + fping_cell(res@, i as int, r as int));
            lemma_flat_push(r as nat, cell);
            assert(parts(out@) =~= start + flat(Seq::new((r + 1) as nat, cell)));
        }
    }
    push_text(out, "\n".to_owned());
    assert(parts(out@) =~= parts(old(out)@) + fping_line(ip, res@, i as int));
}

/// Output in the manner of fping: for each host every probe.
pub fn fping_report(targets: &[IpAddr], res: &Results) -> (out: Vec<Piece>)
    requires
        res.wf(),
        targets.len() <= res.n,
    ensures
        parts(out@) == fping(targets@, res@),
{
    let mut out: Vec<Piece> = Vec::new();
    let ghost row = |i: int| fping_line(targets@[i], res@, i);
    assert(parts(out@) =~= flat(Seq::new(0, row)));
    for i in 0..targets.len()
        invariant
            res.wf(),
            targets.len() <= res.n,
            row == |i: int| fping_line(targets@[i], res@, i),
            parts(out@) == flat(Seq::new(i as nat, row)),
    {
        push_fping_line(&mut out, targets[i], res, i);
        proof {
            lemma_flat_push(i as nat, row);
        }
    }
    out
}

fn alive_digit(s: Score) -> (r: String)
    ensures
        r@ == alive_text(s),
{
    if s.alive == 1 {
        "1".to_owned()
    } else {
        "0".to_owned()
    }
}

fn push_json_object(out: &mut Vec<Piece>, ip: IpAddr, name: &str, s: Score, first: bool)
    ensures
        parts(final(out)@) == parts(old(out)@) + json_object(ip, name@, s, first),
{
    let mut t = String::new();
    if !first {
        t.append(",");
    }
    t.append("{\"ip\":\"");
    let addr = ip.text();
    json::json_escape(addr.as_str(), &mut t);
    t.append("\",\"name\":\"");
    json::json_escape(name, &mut t);
    t.append("\",\"alive\":");
    let alive = alive_digit(s);
    t.append(alive.as_str());
    t.append(",\"loss\":");
    let ghost lead = t@;
    push_text(out, t);
    push_piece(out, Piece::Share4 { part: s.lost, whole: s.probes });
    push_text(out, ",\"rtt\":".to_owned());
    push_piece(out, Piece::Seconds6 { sum_us: s.rtt_sum_us, count: s.replies });
    push_text(out, "}".to_owned());
    proof {
        let comma = if first {
            Seq::empty()
        } else {
            ","@
        };
        assert(lead =~= comma + "{\"ip\":\""@ + json::escaped(ip.text_spec()) + "\",\"name\":\""@
            + json::escaped(name@) + "\",\"alive\":"@ + alive_text(s) + ",\"loss\":"@);
        assert(parts(out@) =~= parts(old(out)@) + json_object(ip, name@, s, first));
    }
}

/// JSON output: one array with an object for each host.
pub fn json_report(
    targets: &[IpAddr],
    names: &[String],
    res: &Results,
    adaptive: bool,
) -> (out: Vec<Piece>)
    requires
        res.wf(),
        targets.len() <= res.n,
        targets.len() <= names.len(),
    ensures
        parts(out@) == json_array(targets@, text::contents(names@), res@, adaptive),
{
    let mut out: Vec<Piece> = Vec::new();
    push_text(&mut out, "[".to_owned());
    let ghost start = seq![Part::Text("["@)];
    let ghost row = |i: int|
        json_object(
            targets@[i],
            text::contents(names@)[i],
            results::score_spec(res@, i, adaptive),
            i == 0,
        );
    assert(parts(out@) =~= start + flat(Seq::new(0, row)));
    for i in 0..targets.len()
        invariant
            res.wf(),
            targets.len() <= res.n,
            targets.len() <= names.len(),
            row == |i: int|
                json_object(
                    targets@[i],
                    text::contents(names@)[i],
                    results::score_spec(res@, i, adaptive),
                    i == 0,
                ),
            parts(out@) == start + flat(Seq::new(i as nat, row)),
    {
        let s = res.score(i, adaptive);
        push_json_object(&mut out, targets[i], names[i].as_str(), s, i == 0);
        proof {
            lemma_flat_push(i as nat, row);
            assert(text::contents(names@)[i as int] == names@[i as int]@);
            assert(parts(out@) =~= start + flat(Seq::new((i + 1) as nat, row)));
        }
    }
    push_text(&mut out, "]\n".to_owned());
    assert(parts(out@) =~= json_array(targets@, text::contents(names@), res@, adaptive));
    out
}

fn push_item(out: &mut Vec<Item>, host: &str, key: &str, suffix: &str, value: Piece)
    ensures
        entries(final(out)@) == entries(old(out)@).push((host@, key@ + suffix@, value@)),
{
    let mut k = key.to_owned();
    k.append(suffix);
    out.push(Item { host: host.to_owned(), key: k, value });
    assert(entries(out@) =~= entries(old(out)@).push((host@, key@ + suffix@, value@)));
}

/// The items for Zabbix: alive, loss and round-trip time of each host.
pub fn zabbix_report(cfg: &Config, targets: &[IpAddr], names: &[String], res: &Results) -> (out:
    Vec<Item>)
    requires
        res.wf(),
        targets.len() <= res.n,
        cfg.zbx_host_mode is Resolved ==> targets.len() <= names.len(),
    ensures
        entries(out@) == zabbix_items(cfg@, targets@, text::contents(names@), res@),
{
    let adaptive = config::is_adaptive(cfg);
    let mut out: Vec<Item> = Vec::new();
    let ghost row = |i: int|
        host_items(
            zabbix_host(cfg@.zbx_host_mode, targets@[i], text::contents(names@)[i]),
            cfg@.zbx_key,
            results::score_spec(res@, i, config::adaptive(cfg@)),
        );
    assert(entries(out@) =~= flat(Seq::new(0, row)));
    for i in 0..targets.len()
        invariant
            res.wf(),
            targets.len() <= res.n,
            cfg.zbx_host_mode is Resolved ==> targets.len() <= names.len(),
            adaptive == config::adaptive(cfg@),
            row == |i: int|
                host_items(
                    zabbix_host(cfg@.zbx_host_mode, targets@[i], text::contents(names@)[i]),
                    cfg@.zbx_key,
                    results::score_spec(res@, i, config::adaptive(cfg@)),
                ),
            entries(out@) == flat(Seq::new(i as nat, row)),
    {
        let ghost before = entries(out@);
        let host = match cfg.zbx_host_mode {
            HostMode::Ip => targets[i].text(),
            HostMode::Resolved => names[i].clone(),
        };
        let s = res.score(i, adaptive);
        let alive = alive_digit(s);
        let key = cfg.zbx_key.as_str();
        push_item(&mut out, host.as_str(), key, ".alive", Piece::Text(alive));
        push_item(
            &mut out,
            host.as_str(),
            key,
            ".loss",
            Piece::Share4 { part: s.lost, whole: s.probes },
        );
        push_item(
            &mut out,
            host.as_str(),
            key,
            ".rtt",
            Piece::Seconds6 { sum_us: s.rtt_sum_us, count: s.replies },
        );
        proof {
            if cfg.zbx_host_mode is Resolved {
                assert(text::contents(names@)[i as int] == names@[i as int]@);
            }
            assert(entries(out@) =~= before + row(i as int));
            lemma_flat_push(i as nat, row);
        }
    }
    out
}

/// The report of a sweep in the chosen output: text, or for Zabbix the items to push.
pub fn report(cfg: &Config, targets: &[IpAddr], names: &[String], res: &Results) -> (r: Report)
    requires
        res.wf(),
        targets.len() <= res.n,
        cfg.output is Json || (cfg.output is Zabbix && cfg.zbx_host_mode is Resolved)
            ==> targets.len() <= names.len(),
    ensures
        match cfg.output {
            Output::Plain => r matches Report::Text(p) && parts(p@) == plain(targets@, res@),
            Output::Fping => r matches Report::Text(p) && parts(p@) == fping(targets@, res@),
            Output::Json => r matches Report::Text(p) && parts(p@) == json_array(
                targets@,
                text::contents(names@),
                res@,
                config::adaptive(cfg@),
            ),
            Output::Zabbix => r matches Report::Items(v) && entries(v@) == zabbix_items(
                cfg@,
                targets@,
                text::contents(names@),
                res@,
            ),
        },
{
    match cfg.output {
        Output::Plain => Report::Text(plain_report(targets, res)),
        Output::Fping => Report::Text(fping_report(targets, res)),
        Output::Json => Report::Text(json_report(targets, names, res, config::is_adaptive(cfg))),
        Output::Zabbix => Report::Items(zabbix_report(cfg, targets, names, res)),
    }
}

proof fn lemma_flat_triples<A>(rows: Seq<Seq<A>>, i: int)
    requires
        forall|k: int| 0 <= k < rows.len() ==> (#[trigger] rows[k]).len() == 3,
        0 <= i < rows.len(),
    ensures
        flat(rows).len() == 3 * rows.len(),
        flat(rows).subrange(3 * i, 3 * i + 3) == rows[i],
    decreases rows.len(),
{
    let front = rows.drop_last();
    assert(forall|k: int| 0 <= k < front.len() ==> #[trigger] front[k] == rows[k]);
    if rows.len() == 1 {
        assert(flat(front) =~= Seq::<A>::empty());
        assert(flat(rows) =~= rows[0]);
        assert(flat(rows).subrange(0, 3) =~= rows[0]);
    } else {
        lemma_flat_triples(
            front,
            if i < front.len() {
                i
            } else {
                0
            },
        );
        if i < front.len() {
            assert(flat(rows).subrange(3 * i, 3 * i + 3) =~= flat(front).subrange(
                3 * i,
                3 * i + 3,
            ));
        } else {
            assert(flat(rows).subrange(3 * i, 3 * i + 3) =~= rows.last());
        }
    }
}

/// Zabbix gets three items for each host, in the order of the hosts: whether it is alive,
/// its loss and its round-trip time.
pub proof fn law_three_items_per_host(
    cfg: config::Settings,
    targets: Seq<IpAddr>,
    names: Seq<Seq<char>>,
    t: Seq<Seq<i64>>,
    i: int,
)
    requires
        0 <= i < targets.len(),
    ensures
        zabbix_items(cfg, targets, names, t).len() == 3 * targets.len(),
        zabbix_items(cfg, targets, names, t).subrange(3 * i, 3 * i + 3) == host_items(
            zabbix_host(cfg.zbx_host_mode, targets[i], names[i]),
            cfg.zbx_key,
            results::score_spec(t, i, config::adaptive(cfg)),
        ),
{
    let rows = Seq::new(
        targets.len(),
        |i: int|
            host_items(
                zabbix_host(cfg.zbx_host_mode, targets[i], names[i]),
                cfg.zbx_key,
                results::score_spec(t, i, config::adaptive(cfg)),
            ),
    );
    lemma_flat_triples(rows, i);
}

/// Plain output calls a host alive exactly if it answered in some round, and down otherwise.
pub proof fn law_plain_line_tells_liveness(ip: IpAddr, t: Seq<Seq<i64>>, i: int)
    ensures
        results::answered(t, i) ==> plain_line(ip, t, i).len() == 3 && plain_line(ip, t, i)[0]
            == Part::Text(ip.text_spec() + " alive "@),
        !results::answered(t, i) ==> plain_line(ip, t, i) == seq![
            Part::Text(ip.text_spec() + " down\n"@),
        ],
{
    results::law_alive_means_answered(t, i, true);
}

/// With the host mode that goes with a batch, every host is called in Zabbix by the name that
/// it came with: the display name where one was given, and else the text of its address.
pub proof fn law_zabbix_host_is_the_given_name(batch: Seq<(IpAddr, Seq<char>)>, k: int)
    requires
        0 <= k < batch.len(),
    ensures
        zabbix_host(
            if targets::has_display_name(batch) {
                HostMode::Resolved
            } else {
                HostMode::Ip
            },
            batch[k].0,
            batch[k].1,
        ) == batch[k].1,
{
}

/// How many of the parts are a lone dash.
pub open spec fn dashes(p: Seq<Part>) -> nat
    decreases p.len(),
{
    if p.len() == 0 {
        0
    } else {
        dashes(p.drop_last()) + if p.last() == Part::Text(seq!['-']) {
            1nat
        } else {
            0
        }
    }
}

proof fn lemma_dashes_push(p: Seq<Part>, x: Part)
    ensures
        dashes(p.push(x)) == dashes(p) + if x == Part::Text(seq!['-']) {
            1nat
        } else {
            0
        },
{
    assert(p.push(x).drop_last() =~= p);
}

/// The cells of the rounds before `k`, after the head of the line.
spec fn fping_front(ip: IpAddr, t: Seq<Seq<i64>>, i: int, k: nat) -> Seq<Part> {
    seq![Part::Text(ip.text_spec() + " : "@)] + flat(Seq::new(k, |r: int| fping_cell(t, i, r)))
}

proof fn lemma_fping_front(ip: IpAddr, t: Seq<Seq<i64>>, i: int, k: nat)
    requires
        k <= t.len(),
    ensures
        ({
            let p = fping_front(ip, t, i, k);
            &&& p.len() == if k == 0 {
                1
            } else {
                2 * k
            }
            &&& p[0] == Part::Text(ip.text_spec() + " : "@)
            &&& forall|r: int|
                0 <= r < k ==> #[trigger] p[1 + 2 * r] == if t[r][i] >= 0 {
                    Part::Millis2(t[r][i])
                } else {
                    Part::Text(seq!['-'])
                }
            &&& forall|r: int| 0 < r < k ==> #[trigger] p[2 * r] == Part::Text(seq![' '])
            &&& dashes(p) + results::replies_of(t, i, k).len() == k
        }),
    decreases k,
{
    let cell = |r: int| fping_cell(t, i, r);
    let head = Part::Text(ip.text_spec() + " : "@);
    reveal_strlit("-");
    reveal_strlit(" ");
    reveal_strlit(" : ");
    assert("-"@ =~= seq!['-']);
    assert(" "@ =~= seq![' ']);
    assert((ip.text_spec() + " : "@).len() >= 3);
    let p = fping_front(ip, t, i, k);
    if k == 0 {
        assert(p =~= Seq::<Part>::empty().push(head));
        lemma_dashes_push(Seq::empty(), head);
        assert(dashes(Seq::<Part>::empty()) == 0);
    } else {
        let q = fping_front(ip, t, i, (k - 1) as nat);
        let v = if t[k - 1][i] >= 0 {
            Part::Millis2(t[k - 1][i])
        } else {
            Part::Text(seq!['-'])
        };
        lemma_fping_front(ip, t, i, (k - 1) as nat);
        lemma_flat_push((k - 1) as nat, cell);
        if k == 1 {
            assert(p =~= q.push(v));
            lemma_dashes_push(q, v);
        } else {
            let space = Part::Text(seq![' ']);
            assert(space != Part::Text(seq!['-'])) by {
                assert(seq![' '][0] != seq!['-'][0]);
            }
            assert(p =~= q.push(space).push(v));
            lemma_dashes_push(q, space);
            lemma_dashes_push(q.push(space), v);
        }
        assert forall|r: int| 0 <= r < k implies #[trigger] p[1 + 2 * r] == if t[r][i] >= 0 {
            Part::Millis2(t[r][i])
        } else {
            Part::Text(seq!['-'])
        } by {
            if r < k - 1 {
                assert(p[1 + 2 * r] == q[1 + 2 * r]);
            }
        }
        assert forall|r: int| 0 < r < k implies #[trigger] p[2 * r] == Part::Text(seq![' ']) by {
            if r < k - 1 {
                assert(p[2 * r] == q[2 * r]);
            }
        }
    }
}

/// In the fping line of a host every round has its cell, the first one too: the round trip where
/// the round was answered and a dash where it was not, with one space between. So the dashes are
/// as many as the rounds without an answer, which is what is lost.
pub proof fn law_fping_line_shows_every_round(ip: IpAddr, t: Seq<Seq<i64>>, i: int)
    requires
        0 < t.len() <= usize::MAX,
    ensures
        ({
            let p = fping_line(ip, t, i);
            &&& p.len() == 2 * t.len() + 1
            &&& p[0] == Part::Text(ip.text_spec() + seq![' ', ':', ' '])
            &&& forall|r: int|
                0 <= r < t.len() ==> #[trigger] p[1 + 2 * r] == if t[r][i] >= 0 {
                    Part::Millis2(t[r][i])
                } else {
                    Part::Text(seq!['-'])
                }
            &&& forall|r: int| 0 < r < t.len() ==> #[trigger] p[2 * r] == Part::Text(seq![' '])
            &&& p.last() == Part::Text(seq!['\n'])
            &&& dashes(p) == results::fixed_score(t, i).lost
        }),
{
    let n = t.len();
    let q = fping_front(ip, t, i, n);
    let end = Part::Text("\n"@);
    lemma_fping_front(ip, t, i, n);
    results::lemma_replies_len(t, i, n);
    reveal_strlit("\n");
    reveal_strlit(" : ");
    assert("\n"@ =~= seq!['\n']);
    assert(" : "@ =~= seq![' ', ':', ' ']);
    let p = fping_line(ip, t, i);
    assert(p =~= q.push(end));
    assert(seq!['\n'][0] != seq!['-'][0]);
    lemma_dashes_push(q, end);
    assert forall|r: int| 0 <= r < n implies #[trigger] p[1 + 2 * r] == if t[r][i] >= 0 {
        Part::Millis2(t[r][i])
    } else {
        Part::Text(seq!['-'])
    } by {
        assert(p[1 + 2 * r] == q[1 + 2 * r]);
    }
    assert forall|r: int| 0 < r < n implies #[trigger] p[2 * r] == Part::Text(seq![' ']) by {
        assert(p[2 * r] == q[2 * r]);
    }
}

/// The text of a report: texts as they are, and numbers as `show` writes them.
pub open spec fn rendered(p: Seq<Part>, show: spec_fn(Part) -> Seq<char>) -> Seq<char>
    decreases p.len(),
{
    if p.len() == 0 {
        Seq::empty()
    } else {
        rendered(p.drop_last(), show) + match p.last() {
            Part::Text(s) => s,
            other => show(other),
        }
    }
}

proof fn lemma_rendered_concat(a: Seq<Part>, b: Seq<Part>, show: spec_fn(Part) -> Seq<char>)
    ensures
        rendered(a + b, show) == rendered(a, show) + rendered(b, show),
    decreases b.len(),
{
    if b.len() == 0 {
        assert(a + b =~= a);
        assert(rendered(a, show) + rendered(b, show) =~= rendered(a, show));
    } else {
        lemma_rendered_concat(a, b.drop_last(), show);
        assert((a + b).drop_last() =~= a + b.drop_last());
        assert(rendered(a + b, show) =~= rendered(a, show) + rendered(b, show));
    }
}

proof fn lemma_rendered_one(x: Part, show: spec_fn(Part) -> Seq<char>)
    ensures
        rendered(seq![x], show) == match x {
            Part::Text(s) => s,
            other => show(other),
        },
{
    assert(seq![x].drop_last() =~= Seq::<Part>::empty());
    assert(rendered(Seq::empty(), show) =~= Seq::<char>::empty());
    assert(rendered(seq![x], show) =~= match x {
        Part::Text(s) => s,
        other => show(other),
    });
}

/// The JSON object of a host: its address and its name as texts, whether it answered as 1 or 0,
/// and its loss and its mean round trip as numbers.
pub open spec fn host_value(
    ip: IpAddr,
    name: Seq<char>,
    t: Seq<Seq<i64>>,
    i: int,
    adaptive: bool,
    show: spec_fn(Part) -> Seq<char>,
) -> json::Value {
    let s = results::score_spec(t, i, adaptive);
    json::Value::Object(
        seq![
            json::Field { name: "ip"@, value: json::Value::Text(ip.text_spec()) },
            json::Field { name: "name"@, value: json::Value::Text(name) },
            json::Field {
                name: "alive"@,
                value: json::Value::Bare(
                    if results::answered(t, i) {
                        seq!['1']
                    } else {
                        seq!['0']
                    },
                ),
            },
            json::Field {
                name: "loss"@,
                value: json::Value::Bare(show(Part::Share4 { part: s.lost, whole: s.probes })),
            },
            json::Field {
                name: "rtt"@,
                value: json::Value::Bare(
                    show(Part::Seconds6 { sum_us: s.rtt_sum_us, count: s.replies }),
                ),
            },
        ],
    )
}

proof fn lemma_plain_names()
    ensures
        json::escaped("ip"@) == "ip"@,
        json::escaped("name"@) == "name"@,
        json::escaped("alive"@) == "alive"@,
        json::escaped("loss"@) == "loss"@,
        json::escaped("rtt"@) == "rtt"@,
{
    reveal_strlit("ip");
    reveal_strlit("name");
    reveal_strlit("alive");
    reveal_strlit("loss");
    reveal_strlit("rtt");
    json::law_plain_text_stands_as_it_is("ip"@);
    json::law_plain_text_stands_as_it_is("name"@);
    json::law_plain_text_stands_as_it_is("alive"@);
    json::law_plain_text_stands_as_it_is("loss"@);
    json::law_plain_text_stands_as_it_is("rtt"@);
}

/// A field and what follows it.
spec fn field_text(name: Seq<char>, value: Seq<char>) -> Seq<char> {
    json::in_quotes(name) + (seq![':'] + value)
}

/// What follows in an object after a value.
spec fn then_text(value: Seq<char>, rest: Seq<char>) -> Seq<char> {
    value + (seq![','] + rest)
}

proof fn lemma_host_value_text(
    ip: IpAddr,
    name: Seq<char>,
    t: Seq<Seq<i64>>,
    i: int,
    adaptive: bool,
    show: spec_fn(Part) -> Seq<char>,
)
    ensures
        ({
            let s = results::score_spec(t, i, adaptive);
            let alive = if results::answered(t, i) {
                seq!['1']
            } else {
                seq!['0']
            };
            let loss = show(Part::Share4 { part: s.lost, whole: s.probes });
            let rtt = show(Part::Seconds6 { sum_us: s.rtt_sum_us, count: s.replies });
            let u4 = field_text("rtt"@, rtt + seq!['}']);
            let u3 = field_text("loss"@, then_text(loss, u4));
            let u2 = field_text("alive"@, then_text(alive, u3));
            let u1 = field_text("name"@, then_text(json::in_quotes(name), u2));
            let u0 = field_text("ip"@, then_text(json::in_quotes(ip.text_spec()), u1));
            json::written(host_value(ip, name, t, i, adaptive, show)) == seq!['{'] + u0
        }),
{
    let f = match host_value(ip, name, t, i, adaptive, show) {
        json::Value::Object(f) => f,
        _ => Seq::empty(),
    };
    let close = seq!['}'];
    let f1 = f.subrange(1, 5);
    let f2 = f1.subrange(1, 4);
    let f3 = f2.subrange(1, 3);
    let f4 = f3.subrange(1, 2);
    assert(f1 =~= seq![f[1], f[2], f[3], f[4]]);
    assert(f2 =~= seq![f[2], f[3], f[4]]);
    assert(f3 =~= seq![f[3], f[4]]);
    assert(f4 =~= seq![f[4]]);
    json::lemma_first_field(f4, close);
    json::lemma_first_field(f3, close);
    json::lemma_first_field(f2, close);
    json::lemma_first_field(f1, close);
    json::lemma_first_field(f, close);
    assert(seq!['{'] + json::written_fields(f) + close =~= seq!['{'] + (json::written_fields(f)
        + close));
}

proof fn lemma_regroup(x: Seq<char>, a: Seq<char>, b: Seq<char>, rest: Seq<char>)
    ensures
        x + a + b + rest == x + (a + (b + rest)),
{
    assert(x + a + b + rest =~= x + (a + (b + rest)));
}

/// The texts between the values are the names of the fields and what separates them.
proof fn lemma_labels(x: Seq<char>)
    ensures
        ",\"rtt\":"@ + x == seq![','] + field_text("rtt"@, x),
        ",\"loss\":"@ + x == seq![','] + field_text("loss"@, x),
        "\",\"alive\":"@ + x == seq!['"'] + (seq![','] + field_text("alive"@, x)),
        "\",\"name\":\""@ + x == seq!['"'] + (seq![','] + field_text("name"@, seq!['"'] + x)),
        "{\"ip\":\""@ + x == seq!['{'] + field_text("ip"@, seq!['"'] + x),
{
    lemma_plain_names();
    reveal_strlit("ip");
    reveal_strlit("name");
    reveal_strlit("alive");
    reveal_strlit("loss");
    reveal_strlit("rtt");
    reveal_strlit("{\"ip\":\"");
    reveal_strlit("\",\"name\":\"");
    reveal_strlit("\",\"alive\":");
    reveal_strlit(",\"loss\":");
    reveal_strlit(",\"rtt\":");
    assert(",\"rtt\":"@ + x =~= seq![','] + field_text("rtt"@, x));
    assert(",\"loss\":"@ + x =~= seq![','] + field_text("loss"@, x));
    assert("\",\"alive\":"@ + x =~= seq!['"'] + (seq![','] + field_text("alive"@, x)));
    assert("\",\"name\":\""@ + x =~= seq!['"'] + (seq![','] + field_text(
        "name"@,
        seq!['"'] + x,
    )));
    assert("{\"ip\":\""@ + x =~= seq!['{'] + field_text("ip"@, seq!['"'] + x));
}

/// A quoted text and what follows it in an object.
proof fn lemma_quoted_then(t: Seq<char>, rest: Seq<char>)
    ensures
        then_text(json::in_quotes(t), rest) == seq!['"'] + (json::escaped(t) + (seq!['"'] + (
        seq![','] + rest))),
{
    assert(then_text(json::in_quotes(t), rest) =~= seq!['"'] + (json::escaped(t) + (seq!['"'] + (
    seq![','] + rest))));
}

proof fn lemma_rendered_push(p: Seq<Part>, x: Part, show: spec_fn(Part) -> Seq<char>)
    ensures
        rendered(p.push(x), show) == rendered(p, show) + match x {
            Part::Text(s) => s,
            other => show(other),
        },
{
    assert(p.push(x).drop_last() =~= p);
}

proof fn lemma_object_rendered(
    lead: Seq<char>,
    s: Score,
    show: spec_fn(Part) -> Seq<char>,
)
    ensures
        rendered(
            seq![
                Part::Text(lead),
                loss_part(s),
                Part::Text(",\"rtt\":"@),
                rtt_part(s),
                Part::Text("}"@),
            ],
            show,
        ) == lead + show(Part::Share4 { part: s.lost, whole: s.probes }) + ",\"rtt\":"@ + show(
            Part::Seconds6 { sum_us: s.rtt_sum_us, count: s.replies },
        ) + "}"@,
{
    let p1 = seq![Part::Text(lead)];
    let p2 = p1.push(loss_part(s));
    let p3 = p2.push(Part::Text(",\"rtt\":"@));
    let p4 = p3.push(rtt_part(s));
    lemma_rendered_one(Part::Text(lead), show);
    lemma_rendered_push(p1, loss_part(s), show);
    lemma_rendered_push(p2, Part::Text(",\"rtt\":"@), show);
    lemma_rendered_push(p3, rtt_part(s), show);
    lemma_rendered_push(p4, Part::Text("}"@), show);
    assert(p4.push(Part::Text("}"@)) =~= seq![
        Part::Text(lead),
        loss_part(s),
        Part::Text(",\"rtt\":"@),
        rtt_part(s),
        Part::Text("}"@),
    ]);
}

proof fn lemma_json_object_text(
    ip: IpAddr,
    name: Seq<char>,
    t: Seq<Seq<i64>>,
    i: int,
    adaptive: bool,
    first: bool,
    show: spec_fn(Part) -> Seq<char>,
)
    ensures
        rendered(
            json_object(ip, name, results::score_spec(t, i, adaptive), first),
            show,
        ) == (if first {
            Seq::empty()
        } else {
            seq![',']
        }) + json::written(host_value(ip, name, t, i, adaptive, show)),
{
    let s = results::score_spec(t, i, adaptive);
    let comma = if first {
        Seq::<char>::empty()
    } else {
        ","@
    };
    let e = json::escaped(ip.text_spec());
    let n = json::escaped(name);
    let alive = alive_text(s);
    let loss = show(Part::Share4 { part: s.lost, whole: s.probes });
    let rtt = show(Part::Seconds6 { sum_us: s.rtt_sum_us, count: s.replies });
    let x1 = comma + "{\"ip\":\""@ + e;
    let x2 = x1 + "\",\"name\":\""@ + n;
    let x3 = x2 + "\",\"alive\":"@ + alive;
    lemma_object_rendered(x3 + ",\"loss\":"@, s, show);
    reveal_strlit(",");
    reveal_strlit("1");
    reveal_strlit("0");
    reveal_strlit("}");
    assert(","@ =~= seq![',']);
    assert("}"@ =~= seq!['}']);
    assert("1"@ =~= seq!['1']);
    assert("0"@ =~= seq!['0']);
    results::law_alive_means_answered(t, i, adaptive);
    let u4 = field_text("rtt"@, rtt + seq!['}']);
    let u3 = field_text("loss"@, then_text(loss, u4));
    let u2 = field_text("alive"@, then_text(alive, u3));
    let u1 = field_text("name"@, then_text(json::in_quotes(name), u2));
    let u0 = field_text("ip"@, then_text(json::in_quotes(ip.text_spec()), u1));
    lemma_host_value_text(ip, name, t, i, adaptive, show);
    lemma_labels(rtt + seq!['}']);
    lemma_regroup(x3 + ",\"loss\":"@ + loss, ",\"rtt\":"@, rtt, "}"@);
    lemma_labels(then_text(loss, u4));
    lemma_regroup(x3, ",\"loss\":"@, loss, seq![','] + u4);
    lemma_labels(then_text(alive, u3));
    lemma_regroup(x2, "\",\"alive\":"@, alive, seq![','] + u3);
    let y = n + (seq!['"'] + (seq![','] + u2));
    lemma_quoted_then(name, u2);
    lemma_labels(y);
    lemma_regroup(x1, "\",\"name\":\""@, n, seq!['"'] + (seq![','] + u2));
    let z = e + (seq!['"'] + (seq![','] + u1));
    lemma_quoted_then(ip.text_spec(), u1);
    lemma_labels(z);
    lemma_regroup(comma, "{\"ip\":\""@, e, seq!['"'] + (seq![','] + u1));
}

/// The values of the first `n` hosts.
spec fn host_values(
    targets: Seq<IpAddr>,
    names: Seq<Seq<char>>,
    t: Seq<Seq<i64>>,
    adaptive: bool,
    show: spec_fn(Part) -> Seq<char>,
    n: nat,
) -> Seq<json::Value> {
    Seq::new(n, |i: int| host_value(targets[i], names[i], t, i, adaptive, show))
}

/// An element more is written after a comma.
proof fn lemma_list_push(l: Seq<json::Value>, v: json::Value)
    ensures
        json::written_list(l.push(v)) == json::written_list(l) + (if l.len() == 0 {
            Seq::empty()
        } else {
            seq![',']
        }) + json::written(v),
    decreases l.len(),
{
    let all = l.push(v);
    if l.len() == 0 {
        assert(json::written_list(all) =~= json::written_list(l) + Seq::<char>::empty()
            + json::written(v));
    } else {
        let more = l.subrange(1, l.len() as int);
        lemma_list_push(more, v);
        assert(all.subrange(1, all.len() as int) =~= more.push(v));
        assert(all[0] == l[0]);
        if l.len() == 1 {
            assert(more.len() == 0);
            assert(json::written_list(more) =~= Seq::<char>::empty());
        }
        assert(json::written_list(all) =~= json::written_list(l) + seq![','] + json::written(v));
    }
}

proof fn lemma_json_rows(
    targets: Seq<IpAddr>,
    names: Seq<Seq<char>>,
    t: Seq<Seq<i64>>,
    adaptive: bool,
    show: spec_fn(Part) -> Seq<char>,
    n: nat,
)
    ensures
        rendered(
            flat(
                Seq::new(
                    n,
                    |i: int|
                        json_object(
                            targets[i],
                            names[i],
                            results::score_spec(t, i, adaptive),
                            i == 0,
                        ),
                ),
            ),
            show,
        ) == json::written_list(host_values(targets, names, t, adaptive, show, n)),
    decreases n,
{
    let row = |i: int|
        json_object(targets[i], names[i], results::score_spec(t, i, adaptive), i == 0);
    let values = host_values(targets, names, t, adaptive, show, n);
    if n == 0 {
        assert(flat(Seq::new(0, row)) =~= Seq::<Part>::empty());
        assert(rendered(Seq::empty(), show) =~= json::written_list(values));
    } else {
        let m = (n - 1) as nat;
        let front = host_values(targets, names, t, adaptive, show, m);
        let last = host_value(targets[m as int], names[m as int], t, m as int, adaptive, show);
        lemma_json_rows(targets, names, t, adaptive, show, m);
        lemma_flat_push(m, row);
        lemma_rendered_concat(flat(Seq::new(m, row)), row(m as int), show);
        lemma_json_object_text(
            targets[m as int],
            names[m as int],
            t,
            m as int,
            adaptive,
            m == 0,
            show,
        );
        lemma_list_push(front, last);
        assert(values =~= front.push(last));
        assert(rendered(flat(Seq::new(n, row)), show) =~= json::written_list(values));
    }
}

/// JSON output is one line with the JSON list of all hosts in order, each an object with its
/// address, its name, whether it answered, its loss and its mean round trip.
pub proof fn law_json_output_is_the_list_of_hosts(
    targets: Seq<IpAddr>,
    names: Seq<Seq<char>>,
    t: Seq<Seq<i64>>,
    adaptive: bool,
    show: spec_fn(Part) -> Seq<char>,
)
    ensures
        rendered(json_array(targets, names, t, adaptive), show) == json::written(
            json::Value::List(
                Seq::new(
                    targets.len(),
                    |i: int| host_value(targets[i], names[i], t, i, adaptive, show),
                ),
            ),
        ) + seq!['\n'],
{
    let n = targets.len();
    let rows = flat(
        Seq::new(
            n,
            |i: int|
                json_object(
                    targets[i],
                    names[i],
                    results::score_spec(t, i, adaptive),
                    i == 0,
                ),
        ),
    );
    let open = seq![Part::Text("["@)];
    let close = seq![Part::Text("]\n"@)];
    let values = host_values(targets, names, t, adaptive, show, n);
    lemma_json_rows(targets, names, t, adaptive, show, n);
    lemma_rendered_one(Part::Text("["@), show);
    lemma_rendered_one(Part::Text("]\n"@), show);
    lemma_rendered_concat(open, rows, show);
    lemma_rendered_concat(open + rows, close, show);
    reveal_strlit("[");
    reveal_strlit("]\n");
    assert("["@ =~= seq!['[']);
    assert("]\n"@ =~= seq![']', '\n']);
    assert(values =~= Seq::new(
        n,
        |i: int| host_value(targets[i], names[i], t, i, adaptive, show),
    ));
    assert(rendered(json_array(targets, names, t, adaptive), show) =~= json::written(
        json::Value::List(values),
    ) + seq!['\n']);
}

/// In plain output a host has one line: its address and, where it answered, the round trip of the
/// first round that it answered in, and else that it is down.
pub proof fn law_plain_line_shows_the_first_round_trip(ip: IpAddr, t: Seq<Seq<i64>>, i: int)
    ensures
        match results::first_reply(t, i) {
            Some(us) => plain_line(ip, t, i) == seq![
                Part::Text(ip.text_spec() + seq![' ', 'a', 'l', 'i', 'v', 'e', ' ']),
                Part::Millis3(us),
                Part::Text(seq![' ', 'm', 's', '\n']),
            ],
            None => plain_line(ip, t, i) == seq![
                Part::Text(ip.text_spec() + seq![' ', 'd', 'o', 'w', 'n', '\n']),
            ],
        },
{
    reveal_strlit(" alive ");
    reveal_strlit(" ms\n");
    reveal_strlit(" down\n");
    assert(" alive "@ =~= seq![' ', 'a', 'l', 'i', 'v', 'e', ' ']);
    assert(" ms\n"@ =~= seq![' ', 'm', 's', '\n']);
    assert(" down\n"@ =~= seq![' ', 'd', 'o', 'w', 'n', '\n']);
}

/// Plain and fping output have a line for every host, in order: one host more adds its line at the
/// end, and without hosts there is nothing.
pub proof fn law_every_host_has_its_line(targets: Seq<IpAddr>, ip: IpAddr, t: Seq<Seq<i64>>)
    ensures
        plain(targets.push(ip), t) == plain(targets, t) + plain_line(ip, t, targets.len() as int),
        fping(targets.push(ip), t) == fping(targets, t) + fping_line(ip, t, targets.len() as int),
        plain(Seq::empty(), t).len() == 0,
        fping(Seq::empty(), t).len() == 0,
{
    let n = targets.len();
    let all = targets.push(ip);
    let p = |i: int| plain_line(all[i], t, i);
    let f = |i: int| fping_line(all[i], t, i);
    lemma_flat_push(n, p);
    lemma_flat_push(n, f);
    assert(Seq::new(n, p) =~= Seq::new(n, |i: int| plain_line(targets[i], t, i)));
    assert(Seq::new(n, f) =~= Seq::new(n, |i: int| fping_line(targets[i], t, i)));
}

/// The three items of a host are called after the key with `.alive`, `.loss` and `.rtt`. The first
/// is 1 exactly if the host answered, the second is the share of its probes that were lost, and
/// the third its mean round trip.
pub proof fn law_items_of_a_host(
    host: Seq<char>,
    key: Seq<char>,
    t: Seq<Seq<i64>>,
    i: int,
    adaptive: bool,
)
    ensures
        ({
            let s = results::score_spec(t, i, adaptive);
            host_items(host, key, s) == seq![
                (
                    host,
                    key + seq!['.', 'a', 'l', 'i', 'v', 'e'],
                    Part::Text(
                        if results::answered(t, i) {
                            seq!['1']
                        } else {
                            seq!['0']
                        },
                    ),
                ),
                (
                    host,
                    key + seq!['.', 'l', 'o', 's', 's'],
                    Part::Share4 { part: s.lost, whole: s.probes },
                ),
                (
                    host,
                    key + seq!['.', 'r', 't', 't'],
                    Part::Seconds6 { sum_us: s.rtt_sum_us, count: s.replies },
                ),
            ]
        }),
{
    results::law_alive_means_answered(t, i, adaptive);
    reveal_strlit(".alive");
    reveal_strlit(".loss");
    reveal_strlit(".rtt");
    reveal_strlit("1");
    reveal_strlit("0");
    assert(".alive"@ =~= seq!['.', 'a', 'l', 'i', 'v', 'e']);
    assert(".loss"@ =~= seq!['.', 'l', 'o', 's', 's']);
    assert(".rtt"@ =~= seq!['.', 'r', 't', 't']);
    assert("1"@ =~= seq!['1']);
    assert("0"@ =~= seq!['0']);
}

/// The host mode decides what a host is called: its address or its name.
pub proof fn law_host_mode_decides_the_name(ip: IpAddr, name: Seq<char>)
    ensures
        zabbix_host(HostMode::Ip, ip, name) == ip.text_spec(),
        zabbix_host(HostMode::Resolved, ip, name) == name,
{
}

} // verus!
