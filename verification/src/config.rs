//! Scan options: the command-line arguments, the values typed at a prompt,
//! and the rules that accept or refuse them.

use vstd::prelude::*;
use vstd::string::{StrSliceExecFns, StringExecFns};
use crate::hex::{decode_hex_payload, hex_payload, hex_payload_splits_char, HexPayload};
use crate::scan::{nec_payload, nec_template};
use crate::text::{parse_unsigned, parse_unsigned_chars, str_chars, trim_bounds, trimmed};

verus! {

/// The transport protocol of a scan.
#[derive(Clone, Copy, Debug, PartialEq, Eq, Structural)]
pub enum Protocol {
    Tcp,
    Udp,
}

/// The command-line arguments of the scanner.
pub struct Args {
    /// IP address, CIDR block, or range (e.g., 192.168.1.1, 192.168.1.0/24, 192.168.1.1-50)
    pub ip: Option<String>,
    /// Protocol (TCP or UDP)
    pub protocol: Option<String>,
    /// Port number to scan (1-65535)
    pub port: Option<u16>,
    /// Source port for outgoing connections (0 or omitted binds to a random system port)
    pub source_port: Option<u16>,
    /// Connection timeout in milliseconds
    pub timeout: Option<u64>,
    /// Max concurrency (simultaneous connections)
    pub concurrency: Option<usize>,
    /// Output text file path
    pub output: Option<String>,
    /// Hex-encoded data payload to send for UDP scans
    pub data: String,
    /// Send the special NEC UDP payload (010100080126008f0a1703f1)
    pub nec: bool,
}

/// Two strings hold the same characters.
pub fn str_eq(a: &str, b: &str) -> (res: bool)
    ensures
        res == (a@ == b@),
{
    let x = str_chars(a);
    let y = str_chars(b);
    if x.len() != y.len() {
        return false;
    }
    let mut i: usize = 0;
    while i < x.len()
        invariant
            i <= x@.len(),
            x@.len() == y@.len(),
            x@ == a@,
            y@ == b@,
            forall|j: int| 0 <= j < i ==> x@[j] == y@[j],
        decreases x@.len() - i,
    {
        if x[i] != y[i] {
            return false;
        }
        i = i + 1;
    }
    assert(x@ =~= y@);
    true
}

/// What `str::to_uppercase` gives: the Unicode upper-case mapping of each character.
pub uninterp spec fn uppercase(s: Seq<char>) -> Seq<char>;

/// Calls `str::to_uppercase`. Its result is named, not restated: the
/// Unicode case mapping it applies is not written out here.
#[verifier::external_body]
fn str_to_uppercase(s: &str) -> (res: String)
    ensures
        res@ == uppercase(s@),
{
    s.to_uppercase()
}

/// The protocol that an upper-cased name stands for.
pub open spec fn protocol_named(u: Seq<char>) -> Option<Protocol> {
    if u == "TCP"@ {
        Some(Protocol::Tcp)
    } else if u == "UDP"@ {
        Some(Protocol::Udp)
    } else {
        None
    }
}

/// The protocol that an upper-cased name stands for: `TCP` or `UDP`.
pub fn protocol_from_upper(u: &str) -> (res: Option<Protocol>)
    ensures
        res == protocol_named(u@),
{
    if str_eq(u, "TCP") {
        Some(Protocol::Tcp)
    } else if str_eq(u, "UDP") {
        Some(Protocol::Udp)
    } else {
        None
    }
}

/// The protocol that a name stands for, in any case: `tcp`, `Udp`, ...
pub fn parse_protocol(s: &str) -> (res: Option<Protocol>)
    ensures
        res == protocol_named(uppercase(s@)),
{
    let u = str_to_uppercase(s);
    protocol_from_upper(u.as_str())
}

/// A port number to scan: 1 to 65535.
pub open spec fn port_value(s: Seq<char>) -> Option<u16> {
    match parse_unsigned(s, 65535) {
        Some(v) => if v > 0 {
            Some(v as u16)
        } else {
            None
        },
        None => None,
    }
}

/// A connection timeout in milliseconds: a positive `u64`.
pub open spec fn timeout_value(s: Seq<char>) -> Option<u64> {
    match parse_unsigned(s, u64::MAX as nat) {
        Some(v) => if v > 0 {
            Some(v as u64)
        } else {
            None
        },
        None => None,
    }
}

/// A concurrency limit: a positive `usize`.
pub open spec fn concurrency_value(s: Seq<char>) -> Option<usize> {
    match parse_unsigned(s, usize::MAX as nat) {
        Some(v) => if v > 0 {
            Some(v as usize)
        } else {
            None
        },
        None => None,
    }
}

/// Reads a port number to scan (1 to 65535).
pub fn parse_port(s: &str) -> (res: Option<u16>)
    ensures
        res == port_value(s@),
{
    let cs = str_chars(s);
    assert(cs@.subrange(0, cs@.len() as int) =~= s@);
    match parse_unsigned_chars(&cs, 0, cs.len(), 65535) {
        Some(v) => if v > 0 {
            Some(v as u16)
        } else {
            None
        },
        None => None,
    }
}

/// Reads a connection timeout in milliseconds (positive).
pub fn parse_timeout(s: &str) -> (res: Option<u64>)
    ensures
        res == timeout_value(s@),
{
    let cs = str_chars(s);
    assert(cs@.subrange(0, cs@.len() as int) =~= s@);
    match parse_unsigned_chars(&cs, 0, cs.len(), u64::MAX) {
        Some(v) => if v > 0 {
            Some(v)
        } else {
            None
        },
        None => None,
    }
}

/// Reads a concurrency limit (positive).
pub fn parse_concurrency(s: &str) -> (res: Option<usize>)
    ensures
        res == concurrency_value(s@),
{
    let cs = str_chars(s);
    assert(cs@.subrange(0, cs@.len() as int) =~= s@);
    match parse_unsigned_chars(&cs, 0, cs.len(), usize::MAX as u64) {
        Some(v) => if v > 0 {
            Some(v as usize)
        } else {
            None
        },
        None => None,
    }
}

/// The answer to a prompt: the typed line trimmed, or the default (else
/// nothing) when that leaves nothing.
pub open spec fn prompt_answer(line: Seq<char>, default: Option<Seq<char>>) -> Seq<char> {
    if trimmed(line).len() == 0 {
        match default {
            Some(d) => d,
            None => Seq::empty(),
        }
    } else {
        trimmed(line)
    }
}

/// The answer to a prompt (see `prompt_answer`).
pub fn resolve_input(line: &str, default: Option<&str>) -> (res: String)
    ensures
        res@ == prompt_answer(
            line@,
            match default {
                Some(d) => Some(d@),
                None => None,
            },
        ),
{
    let cs = str_chars(line);
    let (a, b) = trim_bounds(&cs, 0, cs.len());
    assert(cs@.subrange(0, cs@.len() as int) =~= line@);
    if a == b {
        match default {
            Some(d) => String::from_str(d),
            None => String::new(),
        }
    } else {
        String::from_str(line.substring_char(a, b))
    }
}

/// The command-line arguments with the short spelling `-nec` of the NEC flag
/// written as `--nec`; every other argument unchanged.
pub fn normalize_cli_args(args: Vec<String>) -> (res: Vec<String>)
    ensures
        res@.len() == args@.len(),
        forall|i: int|
            0 <= i < args@.len() ==> (#[trigger] res@[i])@ == if args@[i]@ == "-nec"@ {
                "--nec"@
            } else {
                args@[i]@
            },
{
    let mut res: Vec<String> = Vec::new();
    let mut i: usize = 0;
    while i < args.len()
        invariant
            i <= args@.len(),
            res@.len() == i,
            forall|j: int|
                0 <= j < i ==> (#[trigger] res@[j])@ == if args@[j]@ == "-nec"@ {
                    "--nec"@
                } else {
                    args@[j]@
                },
        decreases args@.len() - i,
    {
        let a = args[i].as_str();
        if str_eq(a, "-nec") {
            res.push(String::from_str("--nec"));
        } else {
            res.push(args[i].clone());
        }
        i = i + 1;
    }
    res
}

/// What a target specification typed at the prompt comes to.
#[derive(Clone, Copy, Debug, PartialEq, Eq, Structural)]
pub enum TargetAnswer {
    /// Nothing was typed: ask again.
    EmptyInput,
    /// The text was refused (its reason is reported): ask again.
    Refused,
    /// The text stands for no address: ask again.
    NoAddresses,
    /// The addresses are taken.
    Accepted,
}

/// Judges a typed target specification, given how many addresses it was
/// expanded to (`None` when it was refused).
pub fn judge_target_answer(input: &str, found: Option<usize>) -> (res: TargetAnswer)
    ensures
        res == if input@.len() == 0 {
            TargetAnswer::EmptyInput
        } else {
            match found {
                None => TargetAnswer::Refused,
                Some(n) => if n == 0 {
                    TargetAnswer::NoAddresses
                } else {
                    TargetAnswer::Accepted
                },
            }
        },
{
    if input.is_empty() {
        TargetAnswer::EmptyInput
    } else {
        match found {
            None => TargetAnswer::Refused,
            Some(n) => if n == 0 {
                TargetAnswer::NoAddresses
            } else {
                TargetAnswer::Accepted
            },
        }
    }
}

impl Args {
    /// The protocol given on the command line, when it names TCP or UDP in any
    /// case; `None` leaves the choice to a prompt.
    pub fn protocol_choice(&self) -> (res: Option<Protocol>)
        ensures
            res == match self.protocol {
                Some(p) => protocol_named(uppercase(p@)),
                None => None,
            },
    {
        match &self.protocol {
            Some(p) => parse_protocol(p.as_str()),
            None => None,
        }
    }

    /// The port given on the command line, unless it is 0; `None` leaves the
    /// choice to a prompt.
    pub fn port_choice(&self) -> (res: Option<u16>)
        ensures
            res == match self.port {
                Some(p) => if p > 0 {
                    Some(p)
                } else {
                    None
                },
                None => None,
            },
    {
        match self.port {
            Some(p) => if p > 0 {
                Some(p)
            } else {
                None
            },
            None => None,
        }
    }

    /// The local source port: the one given, else 0 (the system picks one).
    pub fn source_port_or_any(&self) -> (res: u16)
        ensures
            res == match self.source_port {
                Some(p) => p,
                None => 0,
            },
    {
        match self.source_port {
            Some(p) => p,
            None => 0,
        }
    }

    /// The UDP payload: the NEC template in NEC mode, else the decoded hex
    /// data, else nothing.
    pub fn udp_payload(&self) -> (res: HexPayload)
        ensures
            self.nec ==> (res matches HexPayload::Decoded(v) && v@ == nec_template()),
            !self.nec && self.data@.len() == 0 ==> (res matches HexPayload::Decoded(v) && v@
                == Seq::<u8>::empty()),
            !self.nec && self.data@.len() > 0 ==> match res {
                HexPayload::Decoded(v) => hex_payload(self.data@) == Some(v@)
                    && !hex_payload_splits_char(self.data@),
                HexPayload::Invalid => hex_payload(self.data@) is None
                    && !hex_payload_splits_char(self.data@),
                HexPayload::SplitsChar => hex_payload_splits_char(self.data@),
            },
    {
        if self.nec {
            HexPayload::Decoded(nec_payload())
        } else if self.data.as_str().unicode_len() > 0 {
            decode_hex_payload(self.data.as_str())
        } else {
            HexPayload::Decoded(Vec::new())
        }
    }
}

} // verus!
