//! Scan records: the per-port record, its terminal status, and the
//! normalizer step that drops duplicate ports while keeping first-seen order.

use vstd::prelude::*;
use vstd::string::StringExecFns;
use vstd::string::StrSliceExecFns;
use crate::cli::CliColors;
use crate::cli::painted;
use crate::inspect::InspectionResult;

verus! {

/// The terminal classification of a port, fixed once its probe completes.
#[derive(PartialEq, Eq, Structural, Clone, Copy, Debug)]
pub enum Status {
    /// A connection was established on some attempt.
    Open,
    /// Every attempt completed without a connection and without running out
    /// of time.
    Closed,
    /// No attempt succeeded and the last failing outcome was the timer.
    TimedOut,
}

/// One record per unique port: the number, the terminal status, and the
/// optional inspection payload attached when the port was found open.
#[derive(Debug)]
pub struct Port {
    pub num: u16,
    pub meta: Option<InspectionResult>,
    pub stat: Status,
}

impl Port {
    /// A valid port number is positive; `u16` already bounds it above.
    pub open spec fn wf(&self) -> bool {
        self.num >= 1
    }

    /// A fresh record: pending (`Closed`) with no inspection payload.
    pub fn new(num: u16) -> (r: Port)
        ensures
            r == (Port { num, stat: Status::Closed, meta: None }),
    {
        Port { num, stat: Status::Closed, meta: None }
    }
}

/// The port numbers of a sequence of records, in order.
pub open spec fn port_nums(ps: Seq<Port>) -> Seq<u16> {
    ps.map_values(|p: Port| p.num)
}

/// Fresh pending records for the given numbers, in order.
pub open spec fn fresh_ports(nums: Seq<u16>) -> Seq<Port> {
    nums.map_values(|n: u16| Port { num: n, stat: Status::Closed, meta: None })
}

/// Attaches an inspection payload to a record already found open. The status
/// is untouched: an inspection failure never downgrades `Open`.
pub fn attach_inspection(port: &mut Port, r: InspectionResult)
    requires
        old(port).stat is Open,
    ensures
        final(port).num == old(port).num,
        final(port).stat == old(port).stat,
        final(port).stat is Open,
        final(port).meta == Some(r),
{
    port.meta = Some(r);
}

/// The record sequence with every later repetition of a port number dropped:
/// each number keeps only its first occurrence, and first occurrences keep
/// their relative order.
pub open spec fn dedup_first(s: Seq<Port>) -> Seq<Port>
    decreases s.len(),
{
    if s.len() == 0 {
        Seq::empty()
    } else {
        let rest = dedup_first(s.drop_last());
        if port_nums(s.drop_last()).contains(s.last().num) {
            rest
        } else {
            rest.push(s.last())
        }
    }
}

/// Deduplication keeps exactly the numbers of the input, keeps only records
/// of the input, and leaves no number twice.
pub proof fn lemma_dedup_first_sound(s: Seq<Port>)
    ensures
        port_nums(dedup_first(s)).no_duplicates(),
        forall|n: u16| port_nums(dedup_first(s)).contains(n) <==> port_nums(s).contains(n),
        forall|p: Port| dedup_first(s).contains(p) ==> s.contains(p),
    decreases s.len(),
{
    if s.len() == 0 {
    } else {
        let prefix = s.drop_last();
        lemma_dedup_first_sound(prefix);
        assert forall|n: u16| port_nums(s).contains(n) implies port_nums(dedup_first(s)).contains(
            n,
        ) by {
            let j = choose|j: int| 0 <= j < port_nums(s).len() && #[trigger] port_nums(s)[j] == n;
            if j < prefix.len() {
                assert(port_nums(prefix)[j] == n);
                assert(port_nums(prefix).contains(n));
            } else {
                assert(n == s.last().num);
            }
            if port_nums(prefix).contains(n) {
                assert(port_nums(dedup_first(prefix)).contains(n));
                let i = choose|i: int|
                    0 <= i < port_nums(dedup_first(prefix)).len() && #[trigger] port_nums(
                        dedup_first(prefix),
                    )[i] == n;
                assert(port_nums(dedup_first(s))[i] == n);
            } else {
                assert(n == s.last().num);
                assert(dedup_first(s) == dedup_first(prefix).push(s.last()));
                assert(port_nums(dedup_first(s))[dedup_first(s).len() - 1] == n);
            }
        }
        assert forall|n: u16| port_nums(dedup_first(s)).contains(n) implies port_nums(s).contains(
            n,
        ) by {
            let j = choose|j: int|
                0 <= j < port_nums(dedup_first(s)).len() && port_nums(dedup_first(s))[j] == n;
            if j < dedup_first(prefix).len() {
                assert(port_nums(dedup_first(prefix))[j] == n);
                assert(port_nums(dedup_first(prefix)).contains(n));
                assert(port_nums(prefix).contains(n));
                let k = choose|k: int|
                    0 <= k < port_nums(prefix).len() && #[trigger] port_nums(prefix)[k] == n;
                assert(port_nums(s)[k] == n);
            } else {
                assert(port_nums(s)[s.len() - 1] == n);
            }
        }
        assert forall|p: Port| dedup_first(s).contains(p) implies s.contains(p) by {
            let j = choose|j: int| 0 <= j < dedup_first(s).len() && dedup_first(s)[j] == p;
            if j < dedup_first(prefix).len() {
                assert(dedup_first(prefix)[j] == p);
                assert(dedup_first(prefix).contains(p));
                assert(prefix.contains(p));
                let k = choose|k: int| 0 <= k < prefix.len() && #[trigger] prefix[k] == p;
                assert(s[k] == p);
            } else {
                assert(s[s.len() - 1] == p);
            }
        }
        if !port_nums(prefix).contains(s.last().num) {
            let d = dedup_first(s);
            assert(d == dedup_first(prefix).push(s.last()));
            assert forall|i: int, j: int|
                0 <= i < j < port_nums(d).len() implies port_nums(d)[i] != port_nums(d)[j] by {
                if j < d.len() - 1 {
                    assert(port_nums(dedup_first(prefix))[i] == port_nums(d)[i]);
                    assert(port_nums(dedup_first(prefix))[j] == port_nums(d)[j]);
                } else {
                    assert(port_nums(d)[j] == s.last().num);
                    assert(port_nums(dedup_first(prefix))[i] == port_nums(d)[i]);
                    assert(port_nums(dedup_first(prefix)).contains(port_nums(d)[i]));
                }
            }
        }
    }
}

/// Extending a prefix by one record extends its number sequence by that
/// record's number.
pub proof fn lemma_take_step(all: Seq<Port>, k: int)
    requires
        0 <= k < all.len(),
    ensures
        all.take(k + 1).drop_last() =~= all.take(k),
        all.take(k + 1).last() == all[k],
        port_nums(all.take(k + 1)) =~= port_nums(all.take(k)).push(all[k].num),
        forall|n: u16|
            port_nums(all.take(k + 1)).contains(n) <==> (port_nums(all.take(k)).contains(n) || n
                == all[k].num),
{
    assert(port_nums(all.take(k + 1)) =~= port_nums(all.take(k)).push(all[k].num));
    assert forall|n: u16|
        port_nums(all.take(k + 1)).contains(n) <==> (port_nums(all.take(k)).contains(n) || n
            == all[k].num) by {
        if port_nums(all.take(k + 1)).contains(n) {
            let j = choose|j: int|
                0 <= j < port_nums(all.take(k + 1)).len() && #[trigger] port_nums(all.take(k + 1))[j]
                    == n;
            if j < k {
                assert(port_nums(all.take(k))[j] == n);
            }
        }
        if port_nums(all.take(k)).contains(n) {
            let j = choose|j: int|
                0 <= j < port_nums(all.take(k)).len() && #[trigger] port_nums(all.take(k))[j] == n;
            assert(port_nums(all.take(k + 1))[j] == n);
        }
        if n == all[k].num {
            assert(port_nums(all.take(k + 1))[k] == n);
        }
    }
}

/// Drops every record whose port number was already seen earlier, keeping
/// first occurrences in their order.
pub fn normalize(ports: Vec<Port>) -> (r: Vec<Port>)
    ensures
        r@ == dedup_first(ports@),
        port_nums(r@).no_duplicates(),
        forall|n: u16| port_nums(r@).contains(n) <==> port_nums(ports@).contains(n),
        forall|p: Port| r@.contains(p) ==> ports@.contains(p),
{
    let ghost all = ports@;
    let mut seen: Vec<bool> = Vec::new();
    let mut i: usize = 0;
    while i < 65536
        invariant
            seen@.len() == i,
            i <= 65536,
            forall|j: int| 0 <= j < i ==> !seen@[j],
        decreases 65536 - i,
    {
        seen.push(false);
        i = i + 1;
    }
    let mut inp = ports;
    let mut rev: Vec<Port> = Vec::new();
    loop
        invariant
            inp@.len() + rev@.len() == all.len(),
            inp@ == all.take(inp@.len() as int),
            forall|j: int| 0 <= j < rev@.len() ==> rev@[j] == all[all.len() - 1 - j],
        ensures
            rev@.len() == all.len(),
            forall|j: int| 0 <= j < rev@.len() ==> rev@[j] == all[all.len() - 1 - j],
        decreases inp@.len(),
    {
        match inp.pop() {
            Some(p) => {
                rev.push(p);
            },
            None => {
                break ;
            },
        }
    }
    let mut out: Vec<Port> = Vec::new();
    proof {
        assert(rev@.len() == all.len());
        assert(all.take(0) =~= Seq::<Port>::empty());
        assert(dedup_first(all.take(0)) =~= Seq::<Port>::empty());
        assert(port_nums(all.take(0)).len() == 0);
    }
    loop
        invariant
            rev@.len() <= all.len(),
            seen@.len() == 65536,
            forall|j: int| 0 <= j < rev@.len() ==> rev@[j] == all[all.len() - 1 - j],
            out@ == dedup_first(all.take(all.len() - rev@.len())),
            forall|n: u16| seen@[n as int] <==> port_nums(
                all.take(all.len() - rev@.len()),
            ).contains(n),
        ensures
            rev@.len() == 0,
            out@ == dedup_first(all.take(all.len() as int)),
        decreases rev@.len(),
    {
        let ghost k = all.len() - rev@.len();
        match rev.pop() {
            Some(p) => {
                proof {
                    assert(p == all[k]);
                    lemma_take_step(all, k as int);
                }
                let idx: usize = p.num as usize;
                if !seen[idx] {
                    seen[idx] = true;
                    out.push(p);
                }
            },
            None => {
                break ;
            },
        }
    }
    proof {
        assert(all.take(all.len() as int) =~= all);
        lemma_dedup_first_sound(all);
    }
    out
}

/// `n` space characters.
pub open spec fn spaces(n: nat) -> Seq<char> {
    Seq::new(n, |i: int| ' ')
}

/// `w` centered in a field of `pad` characters: the word unchanged when it
/// does not fit, else padded with spaces, the extra space on the right when
/// the split is uneven.
pub open spec fn centered(w: Seq<char>, pad: nat) -> Seq<char> {
    if pad <= w.len() {
        w
    } else {
        let extra = (pad - w.len()) as nat;
        spaces(extra / 2) + w + spaces((extra - extra / 2) as nat)
    }
}

/// A string of `n` spaces.
fn space_string(n: usize) -> (r: String)
    ensures
        r@ == spaces(n as nat),
{
    let mut s = String::new();
    let mut i: usize = 0;
    proof {
        assert(s@ =~= spaces(0));
    }
    while i < n
        invariant
            i <= n,
            s@ == spaces(i as nat),
        decreases n - i,
    {
        s.append(" ");
        i = i + 1;
        proof {
            reveal_strlit(" ");
            assert(s@ =~= spaces(i as nat));
        }
    }
    s
}

/// `w` centered in a field of `pad` characters, as `centered` describes.
fn center(w: &str, pad: usize) -> (r: String)
    ensures
        r@ == centered(w@, pad as nat),
{
    let len = w.unicode_len();
    if pad <= len {
        String::from_str(w)
    } else {
        let extra = pad - len;
        let left = extra / 2;
        let right = extra - left;
        let mut s = space_string(left);
        s.append(w);
        let sp = space_string(right);
        s.append(sp.as_str());
        proof {
            assert(s@ =~= centered(w@, pad as nat));
        }
        s
    }
}

impl Status {
    /// The word printed for this status.
    pub open spec fn label(self) -> Seq<char> {
        match self {
            Status::Open => "open"@,
            Status::Closed => "closed"@,
            Status::TimedOut => "timeout"@,
        }
    }

    /// The ANSI color code the status is painted with.
    pub open spec fn color_code(self) -> Seq<char> {
        match self {
            Status::Open => "\x1b[32m"@,
            Status::Closed => "\x1b[38;5;249m"@,
            Status::TimedOut => "\x1b[33m"@,
        }
    }

    /// The status word centered in a field of `pad` characters and painted
    /// in the status color according to the color mode.
    pub fn display(&self, pad: usize, colors: CliColors) -> (r: String)
        ensures
            colors is Always ==> r@ == painted(
                centered(self.label(), pad as nat),
                self.color_code(),
            ),
            colors is No ==> r@ == centered(self.label(), pad as nat),
            r@ == painted(centered(self.label(), pad as nat), self.color_code()) || r@ == centered(
                self.label(),
                pad as nat,
            ),
    {
        let label: &str = match self {
            Status::Open => "open",
            Status::Closed => "closed",
            Status::TimedOut => "timeout",
        };
        let color: &str = match self {
            Status::Open => "\x1b[32m",
            Status::Closed => "\x1b[38;5;249m",
            Status::TimedOut => "\x1b[33m",
        };
        let c = center(label, pad);
        colors.paint(c.as_str(), color)
    }
}

/// The full normalizer: parses every specification string and drops later
/// duplicates. Succeeds exactly when every token is valid; the result then
/// holds one fresh pending record per distinct requested port, first
/// occurrences first, every number positive.
pub fn normalize_specs(specs: &Vec<String>) -> (r: Result<Vec<Port>, crate::cli::ParseError>)
    ensures
        r is Ok <==> crate::cli::spec_parse_specs(crate::cli::str_views(specs@)) is Some,
        r matches Ok(v) ==> crate::cli::spec_parse_specs(crate::cli::str_views(specs@)) matches Some(
            ns,
        ) && v@ == dedup_first(fresh_ports(ns)) && port_nums(v@).no_duplicates() && (forall|j: int|
            0 <= j < v@.len() ==> (#[trigger] v@[j]).wf() && v@[j].stat is Closed
                && v@[j].meta is None) && (forall|n: u16|
            port_nums(v@).contains(n) <==> ns.contains(n)),
{
    match crate::cli::parse_specs(specs) {
        Ok(ports) => {
            let ghost ns = crate::cli::spec_parse_specs(crate::cli::str_views(specs@))->Some_0;
            let r = normalize(ports);
            proof {
                crate::cli::lemma_parse_specs_pos(crate::cli::str_views(specs@));
                assert(port_nums(fresh_ports(ns)) =~= ns);
                assert forall|j: int|
                    0 <= j < r@.len() implies (#[trigger] r@[j]).wf() && r@[j].stat is Closed
                        && r@[j].meta is None by {
                    assert(r@.contains(r@[j]));
                    assert(fresh_ports(ns).contains(r@[j]));
                    let k = choose|k: int|
                        0 <= k < fresh_ports(ns).len() && #[trigger] fresh_ports(ns)[k] == r@[j];
                    assert(fresh_ports(ns)[k] == (Port {
                        num: ns[k],
                        stat: Status::Closed,
                        meta: None,
                    }));
                    assert(1 <= ns[k]);
                }
                assert forall|n: u16| port_nums(r@).contains(n) <==> ns.contains(n) by {
                    assert(port_nums(r@).contains(n) <==> port_nums(fresh_ports(ns)).contains(n));
                }
            }
            Ok(r)
        },
        Err(e) => Err(e),
    }
}

} // verus!
