//! What a command comes to before the sweep: the batch, or a refusal.
use crate::addr::IpAddr;
use crate::args;
use crate::config;
use crate::config::{Config, HostMode};
use crate::targets;
use crate::text;
use vstd::prelude::*;

verus! {

/// How a command ends without a sweep.
pub struct Exit {
    /// For standard output.
    pub out: String,
    /// For standard error.
    pub err: String,
    pub code: i32,
}

/// Ends a command whose arguments came to `e`: a call for help is answered on standard
/// output, anything else is an error.
pub fn refused_arguments(e: &str) -> (r: Exit)
    ensures
        if e@ == "help"@ {
            r.out@ == args::USAGE@ && r.err@.len() == 0 && r.code == 0
        } else {
            r.out@.len() == 0 && r.err@ == "fastping: "@ + e@ + "\n\n"@ + args::USAGE@ && r.code
                == 2
        },
{
    let chars = text::chars_of(e);
    if text::spells(chars.as_slice(), "help") {
        return Exit { out: args::USAGE.to_owned(), err: String::new(), code: 0 };
    }
    let mut err = "fastping: ".to_owned();
    err.append(e);
    err.append("\n\n");
    err.append(args::USAGE);
    Exit { out: String::new(), err, code: 2 }
}

/// Ends a command whose transport could not be set up, with a hint where permission was
/// denied.
pub fn refused_transport(e: &str, denied: bool) -> (r: Exit)
    ensures
        r.out@.len() == 0,
        r.code == 1,
        r.err@ == "fastping: "@ + e@ + "\n"@ + if denied {
            "hint: raw sockets need CAP_NET_RAW — run as root or setcap.\n"@
        } else {
            Seq::empty()
        },
{
    let mut err = "fastping: ".to_owned();
    err.append(e);
    err.append("\n");
    if denied {
        err.append("hint: raw sockets need CAP_NET_RAW — run as root or setcap.\n");
    }
    assert(denied || err@ + Seq::<char>::empty() =~= err@);
    Exit { out: String::new(), err, code: 1 }
}

/// The batch of a command: its targets without repeats, their names, and the settings, in which
/// display names call hosts in Zabbix as soon as one was given.
pub fn batch(cfg: Config, raw: Vec<(IpAddr, String)>) -> (r: (Config, Vec<IpAddr>, Vec<String>))
    ensures
        ({
            let kept = targets::without_repeats(targets::named(raw@));
            &&& r.0@ == (config::Settings {
                zbx_host_mode: if targets::has_display_name(kept) {
                    HostMode::Resolved
                } else {
                    cfg.zbx_host_mode
                },
                ..cfg@
            })
            &&& r.1@ == kept.map_values(|t: (IpAddr, Seq<char>)| t.0)
            &&& text::contents(r.2@) == kept.map_values(|t: (IpAddr, Seq<char>)| t.1)
        }),
        r.1@.len() == r.2@.len(),
{
    let (ips, names, resolved) = targets::dedupe(raw);
    assert(text::contents(names@).len() == names@.len());
    let mut cfg = cfg;
    if resolved {
        cfg.zbx_host_mode = HostMode::Resolved;
    }
    (cfg, ips, names)
}

} // verus!
