//! Address rules and the grammar that produces them.
//!
//! A rule is parsed from a single string and classifies an endpoint
//! (IP address plus port).  Three forms exist, tried in this order:
//! `"ip:port"` (exact endpoint; IPv6 addresses in brackets), `"ip"`
//! (bare address, any port) and `"ip/prefixlen"` (CIDR range, any port).
//!
//! The grammar is defined by the `spec` functions below, over the UTF-8
//! bytes of the input; every executable parser is proved to return exactly
//! what the grammar says.

use vstd::prelude::*;
use vstd::string::StringSliceAdditionalSpecFns;
use vstd::arithmetic::power2::pow2;
use vstd::arithmetic::power2::lemma_pow2_adds;
use vstd::arithmetic::power2::lemma_pow2_pos;
use vstd::arithmetic::power2::lemma2_to64;
use vstd::arithmetic::power2::lemma2_to64_rest;

verus! {

/// An IP address, IPv4 as its 32-bit value, IPv6 as its 128-bit value.
#[derive(Clone, Copy, Debug, PartialEq, Eq, Structural)]
pub enum IpRepr {
    V4(u32),
    V6(u128),
}

/// An endpoint: an IP address paired with a port number.
#[derive(Clone, Copy, Debug, PartialEq, Eq, Structural)]
pub struct Addr {
    pub ip: IpRepr,
    pub port: u16,
}

/// A CIDR block: a base address and a prefix length.
///
/// The parser only produces prefixes of at most 32 (IPv4) or 128 (IPv6)
/// bits; containment treats any larger prefix as the full width.
#[derive(Clone, Copy, Debug, PartialEq, Eq, Structural)]
pub enum IpNetRepr {
    V4 { addr: u32, prefix: u8 },
    V6 { addr: u128, prefix: u8 },
}

/// One configured address rule.
#[derive(Clone, Copy, Debug, PartialEq, Eq, Structural)]
pub enum ConfigAddr {
    /// Matches only the exact endpoint (IP and port).
    WithPort(Addr),
    /// Matches any endpoint with this IP, any port.
    OnlyIp(IpRepr),
    /// Matches any endpoint whose IP lies in the CIDR block, any port.
    Range(IpNetRepr),
}

/// The error returned when a rule string fits none of the three forms.
#[derive(Clone, Copy, Debug)]
pub struct InvalidAddr;

// ---------------------------------------------------------------------------
// Grammar, spec side.  All positions are byte indices.
// ---------------------------------------------------------------------------

pub open spec fn is_dec(b: u8) -> bool {
    48 <= b <= 57
}

pub open spec fn dec_val(b: u8) -> u32 {
    (b - 48) as u32
}

pub open spec fn hex_val(b: u8) -> Option<u32> {
    if is_dec(b) {
        Some(dec_val(b))
    } else if 97 <= b <= 102 {  // 'a' ..= 'f'
        Some((b - 97 + 10) as u32)
    } else if 65 <= b <= 70 {  // 'A' ..= 'F'
        Some((b - 65 + 10) as u32)
    } else {
        None
    }
}

/// Digits after the first one of a decimal number; values above 99999 are
/// rejected, so every accepted number fits well inside `u32`.
pub open spec fn sp_dec_loop(s: Seq<u8>, i: int, acc: u32) -> Option<(u32, int)>
    decreases s.len() - i,
{
    if 0 <= i < s.len() && is_dec(s[i]) {
        if acc > 99999 {
            None
        } else {
            sp_dec_loop(s, i + 1, (acc * 10 + dec_val(s[i])) as u32)
        }
    } else {
        Some((acc, i))
    }
}

/// A decimal number starting at `i`: one or more digits, no leading zero
/// (a single `"0"` is allowed), value at most 999999.
pub open spec fn sp_dec(s: Seq<u8>, i: int) -> Option<(u32, int)> {
    if 0 <= i < s.len() && is_dec(s[i]) {
        if s[i] == 48 && i + 1 < s.len() && is_dec(s[i + 1]) {
            None
        } else {
            sp_dec_loop(s, i + 1, dec_val(s[i]))
        }
    } else {
        None
    }
}

/// An IPv4 octet: a decimal number of value at most 255.
pub open spec fn sp_octet(s: Seq<u8>, i: int) -> Option<(u32, int)> {
    match sp_dec(s, i) {
        Some((v, j)) => if v <= 255 { Some((v, j)) } else { None },
        None => None,
    }
}

/// A dotted-quad IPv4 address starting at `i`; returns its 32-bit value
/// and the position after it.
pub open spec fn sp_ipv4(s: Seq<u8>, i: int) -> Option<(u32, int)> {
    match sp_octet(s, i) {
        Some((a, j1)) => if j1 < s.len() && s[j1] == 46 {
            match sp_octet(s, j1 + 1) {
                Some((b, j2)) => if j2 < s.len() && s[j2] == 46 {
                    match sp_octet(s, j2 + 1) {
                        Some((c, j3)) => if j3 < s.len() && s[j3] == 46 {
                            match sp_octet(s, j3 + 1) {
                                Some((d, j4)) => Some(
                                    ((a * 0x1000000 + b * 0x10000 + c * 0x100 + d) as u32, j4),
                                ),
                                None => None,
                            }
                        } else {
                            None
                        },
                        None => None,
                    }
                } else {
                    None
                },
                None => None,
            }
        } else {
            None
        },
        None => None,
    }
}

/// A dotted-quad IPv4 address filling `s[i..end]` exactly.
pub open spec fn sp_v4_at(s: Seq<u8>, i: int, end: int) -> Option<u32> {
    match sp_ipv4(s, i) {
        Some((v, j)) => if j == end { Some(v) } else { None },
        None => None,
    }
}

/// One IPv6 group: one to four hex digits.  `acc` holds the digits read so
/// far, `cnt` how many.
pub open spec fn sp_hex_loop(s: Seq<u8>, i: int, acc: u32, cnt: u32) -> Option<(u32, int)>
    decreases s.len() - i,
{
    if 0 <= i < s.len() && hex_val(s[i]) is Some {
        if cnt >= 4 || acc > 0xFFF {
            None
        } else {
            sp_hex_loop(s, i + 1, (acc * 16 + hex_val(s[i]).unwrap()) as u32, (cnt + 1) as u32)
        }
    } else {
        Some((acc, i))
    }
}

pub open spec fn sp_group(s: Seq<u8>, i: int) -> Option<(u32, int)> {
    if 0 <= i < s.len() && hex_val(s[i]) is Some {
        sp_hex_loop(s, i + 1, hex_val(s[i]).unwrap(), 1)
    } else {
        None
    }
}

/// Groups after a `"::"`, read until `end`.  They fill the low bits of the
/// address; `val` and `cnt` accumulate their value and their number.  A
/// dotted-quad may stand as the final piece, counting as two groups.
pub open spec fn sp_tail(s: Seq<u8>, i: int, end: int, val: int, cnt: u32) -> Option<(int, u32)>
    decreases end - i,
{
    if i == end {
        Some((val, cnt))
    } else if cnt >= 8 {
        None
    } else if cnt <= 6 && sp_v4_at(s, i, end) is Some {
        Some((val * 0x100000000 + sp_v4_at(s, i, end).unwrap(), (cnt + 2) as u32))
    } else {
        match sp_group(s, i) {
            Some((g, j)) => {
                let v2 = val * 0x10000 + g;
                if j == end {
                    Some((v2, (cnt + 1) as u32))
                    // A group always advances, so `i < j` holds; stating it
                    // lets the recursion's measure decrease.
                } else if i < j && j < end && s[j] == 58 && j + 1 < end && s[j + 1] != 58 {
                    sp_tail(s, j + 1, end, v2, (cnt + 1) as u32)
                } else {
                    None
                }
            },
            None => None,
        }
    }
}

/// Groups before any `"::"`, starting in a position that must hold a group.
/// `val` and `cnt` accumulate the groups read so far (they fill the high
/// bits).  Accepts either a full eight-group address (a dotted-quad may
/// stand for the last two groups) or a `"::"` followed by a tail.
pub open spec fn sp_head(s: Seq<u8>, i: int, end: int, val: int, cnt: u32) -> Option<u128>
    decreases end - i,
{
    if cnt == 6 && sp_v4_at(s, i, end) is Some {
        Some(((val * 0x100000000 + sp_v4_at(s, i, end).unwrap()) as u128))
    } else if cnt >= 8 {
        None
    } else {
        match sp_group(s, i) {
            Some((g, j)) => {
                let v2 = val * 0x10000 + g;
                if j == end {
                    if cnt == 7 {
                        Some(v2 as u128)
                    } else {
                        None
                    }
                } else if i < j && j < end && s[j] == 58 {
                    if j + 1 < end && s[j + 1] == 58 {
                        match sp_tail(s, j + 2, end, 0, 0) {
                            Some((tval, tcnt)) => if cnt + 1 + tcnt <= 7 {
                                Some(
                                    ((v2 * pow2((16 * (7 - cnt)) as nat) + tval) as u128),
                                )
                            } else {
                                None
                            },
                            None => None,
                        }
                    } else {
                        sp_head(s, j + 1, end, v2, (cnt + 1) as u32)
                    }
                } else {
                    None
                }
            },
            None => None,
        }
    }
}

/// An IPv6 address filling `s[start..end]` exactly: either it begins with
/// `"::"` and the tail fills the low bits, or it is a head as above.
pub open spec fn sp_ipv6(s: Seq<u8>, start: int, end: int) -> Option<u128> {
    if start + 2 <= end && s[start] == 58 && s[start + 1] == 58 {
        match sp_tail(s, start + 2, end, 0, 0) {
            Some((tval, tcnt)) => if tcnt <= 7 { Some(tval as u128) } else { None },
            None => None,
        }
    } else {
        sp_head(s, start, end, 0, 0)
    }
}

/// First position of byte `b` at or after `i`, if any.
pub open spec fn sp_find(s: Seq<u8>, i: int, b: u8) -> Option<int>
    decreases s.len() - i,
{
    if 0 <= i < s.len() {
        if s[i] == b {
            Some(i)
        } else {
            sp_find(s, i + 1, b)
        }
    } else {
        None
    }
}

/// A port number filling `s[i..]` exactly.
pub open spec fn sp_port_at(s: Seq<u8>, i: int) -> Option<u16> {
    match sp_dec(s, i) {
        Some((v, j)) => if j == s.len() && v <= 65535 { Some(v as u16) } else { None },
        None => None,
    }
}

/// A whole string holding a bare IPv4 address.
pub open spec fn ipv4_of(s: Seq<u8>) -> Option<u32> {
    sp_v4_at(s, 0, s.len() as int)
}

/// A whole string holding a bare IPv6 address.
pub open spec fn ipv6_of(s: Seq<u8>) -> Option<u128> {
    sp_ipv6(s, 0, s.len() as int)
}

/// A whole string holding a bare IP address of either family.
pub open spec fn ip_of(s: Seq<u8>) -> Option<IpRepr> {
    if ipv4_of(s) is Some {
        Some(IpRepr::V4(ipv4_of(s).unwrap()))
    } else if ipv6_of(s) is Some {
        Some(IpRepr::V6(ipv6_of(s).unwrap()))
    } else {
        None
    }
}

/// A whole string holding an endpoint: `"v4:port"` or `"[v6]:port"`.
pub open spec fn sock_of(s: Seq<u8>) -> Option<Addr> {
    if s.len() > 0 && s[0] == 91 {  // '['
        match sp_find(s, 0, 93) {  // ']'
            Some(k) => match sp_ipv6(s, 1, k) {
                Some(ip) => if k + 1 < s.len() && s[k + 1] == 58 {
                    match sp_port_at(s, k + 2) {
                        Some(p) => Some(Addr { ip: IpRepr::V6(ip), port: p }),
                        None => None,
                    }
                } else {
                    None
                },
                None => None,
            },
            None => None,
        }
    } else {
        match sp_ipv4(s, 0) {
            Some((v, j)) => if j < s.len() && s[j] == 58 {
                match sp_port_at(s, j + 1) {
                    Some(p) => Some(Addr { ip: IpRepr::V4(v), port: p }),
                    None => None,
                }
            } else {
                None
            },
            None => None,
        }
    }
}

/// A whole string holding a CIDR block: `"addr/prefixlen"`.
pub open spec fn cidr_of(s: Seq<u8>) -> Option<IpNetRepr> {
    match sp_find(s, 0, 47) {  // '/'
        Some(k) => {
            let pfx = match sp_dec(s, k + 1) {
                Some((v, j)) => if j == s.len() { Some(v) } else { None },
                None => None,
            };
            match pfx {
                Some(p) => {
                    if sp_v4_at(s, 0, k) is Some && p <= 32 {
                        Some(IpNetRepr::V4 { addr: sp_v4_at(s, 0, k).unwrap(), prefix: p as u8 })
                    } else if sp_ipv6(s, 0, k) is Some && p <= 128 {
                        Some(IpNetRepr::V6 { addr: sp_ipv6(s, 0, k).unwrap(), prefix: p as u8 })
                    } else {
                        None
                    }
                },
                None => None,
            }
        },
        None => None,
    }
}

/// The rule a whole string denotes: the endpoint form, the bare-IP form and
/// the CIDR form are tried in that order; the first that accepts wins.
pub open spec fn rule_of(s: Seq<u8>) -> Option<ConfigAddr> {
    if sock_of(s) is Some {
        Some(ConfigAddr::WithPort(sock_of(s).unwrap()))
    } else if ip_of(s) is Some {
        Some(ConfigAddr::OnlyIp(ip_of(s).unwrap()))
    } else if cidr_of(s) is Some {
        Some(ConfigAddr::Range(cidr_of(s).unwrap()))
    } else {
        None
    }
}

// ---------------------------------------------------------------------------
// Arithmetic helpers for assembling 128-bit addresses out of 16-bit groups.
// ---------------------------------------------------------------------------

proof fn lemma_pow2_128()
    ensures
        pow2(128) == 0x100000000000000000000000000000000,
{
    lemma2_to64();
    lemma2_to64_rest();
    lemma_pow2_adds(64, 64);
}

proof fn lemma_pow2_le(a: nat, b: nat)
    requires
        a <= b,
    ensures
        pow2(a) <= pow2(b),
{
    if a < b {
        vstd::arithmetic::power2::lemma_pow2_strictly_increases(a, b);
    }
}

/// Shifting a `cnt_bits`-bit value up by `add_bits` bits and adding an
/// `add_bits`-bit value stays below `pow2(cnt_bits + add_bits)`.
proof fn lemma_shift_add(val: int, cnt_bits: nat, add_bits: nat, g: int)
    requires
        0 <= val < pow2(cnt_bits),
        0 <= g < pow2(add_bits),
    ensures
        0 <= val * pow2(add_bits) + g < pow2((cnt_bits + add_bits) as nat),
{
    lemma_pow2_adds(cnt_bits, add_bits);
    lemma_pow2_pos(add_bits);
    let q = pow2(add_bits) as int;
    let p = pow2(cnt_bits) as int;
    assert(0 <= val * q + g < p * q) by (nonlinear_arith)
        requires
            0 <= val < p,
            0 <= g < q,
            q > 0,
    ;
}

/// `v * 65536^n`, for values that stay inside `u128`.
fn mul_pow16(v: u128, n: u32) -> (r: u128)
    requires
        n <= 8,
        (v as int) * pow2((16 * n) as nat) < pow2(128),
    ensures
        r as int == (v as int) * pow2((16 * n) as nat),
    decreases n,
{
    proof {
        lemma_pow2_128();
    }
    if n == 0 {
        proof {
            lemma2_to64();
            let w = pow2((16 * n) as nat) as int;
            assert(v as int == (v as int) * w) by (nonlinear_arith)
                requires
                    w == 1,
            ;
        }
        v
    } else {
        proof {
            lemma_pow2_adds(16, (16 * (n - 1)) as nat);
            lemma_pow2_pos((16 * (n - 1)) as nat);
            lemma2_to64();
            let p = pow2((16 * (n - 1)) as nat) as int;
            let q = pow2((16 * n) as nat) as int;
            assert((v as int) * 65536 <= ((v as int) * 65536) * p && ((v as int) * 65536) * p == (
            v as int) * (65536 * p)) by (nonlinear_arith)
                requires
                    p >= 1,
                    v >= 0,
            ;
        }
        let r = mul_pow16(v * 65536, n - 1);
        proof {
            lemma_pow2_adds(16, (16 * (n - 1)) as nat);
            lemma2_to64();
            let p = pow2((16 * (n - 1)) as nat) as int;
            let q = pow2((16 * n) as nat) as int;
            assert(r as int == ((v as int) * 65536) * p);
            assert((16 * n) as nat == 16 + (16 * (n - 1)) as nat);
            assert(q == 65536 * p);
            assert(((v as int) * 65536) * p == (v as int) * (65536 * p)) by (nonlinear_arith);
            assert(r as int == (v as int) * q);
            assert(r as int == (v as int) * pow2((16 * n) as nat));
        }
        r
    }
}

/// `2^k` as a `u128`.
fn pow2_u128(k: u32) -> (r: u128)
    requires
        k <= 127,
    ensures
        r as int == pow2(k as nat),
    decreases k,
{
    proof {
        lemma_pow2_128();
        lemma_pow2_le(k as nat, 127);
        lemma_pow2_le(127, 128);
        vstd::arithmetic::power2::lemma_pow2_strictly_increases(127, 128);
    }
    if k == 0 {
        proof {
            lemma2_to64();
        }
        1
    } else {
        let h = pow2_u128(k - 1);
        proof {
            lemma_pow2_adds((k - 1) as nat, 1);
            lemma2_to64();
        }
        h * 2
    }
}

// ---------------------------------------------------------------------------
// Executable parsers, each proved equal to its grammar function.
// ---------------------------------------------------------------------------

pub open spec fn rel32(r: Option<(u32, usize)>, m: Option<(u32, int)>) -> bool {
    match r {
        Some((v, j)) => m == Some((v, j as int)),
        None => m is None,
    }
}

fn e_dec_loop(s: &[u8], i: usize, acc: u32) -> (r: Option<(u32, usize)>)
    requires
        i <= s@.len(),
        acc <= 999999,
    ensures
        rel32(r, sp_dec_loop(s@, i as int, acc)),
        r is Some ==> r.unwrap().0 <= 999999 && i <= r.unwrap().1 <= s@.len(),
    decreases s@.len() - i,
{
    if i < s.len() && 48 <= s[i] && s[i] <= 57 {
        if acc > 99999 {
            None
        } else {
            e_dec_loop(s, i + 1, acc * 10 + (s[i] - 48) as u32)
        }
    } else {
        Some((acc, i))
    }
}

fn e_dec(s: &[u8], i: usize) -> (r: Option<(u32, usize)>)
    requires
        i <= s@.len(),
    ensures
        rel32(r, sp_dec(s@, i as int)),
        r is Some ==> r.unwrap().0 <= 999999 && i < r.unwrap().1 <= s@.len(),
    decreases s@.len() - i,
{
    if i < s.len() && 48 <= s[i] && s[i] <= 57 {
        if s[i] == 48 && i + 1 < s.len() && 48 <= s[i + 1] && s[i + 1] <= 57 {
            None
        } else {
            e_dec_loop(s, i + 1, (s[i] - 48) as u32)
        }
    } else {
        None
    }
}

fn e_octet(s: &[u8], i: usize) -> (r: Option<(u32, usize)>)
    requires
        i <= s@.len(),
    ensures
        rel32(r, sp_octet(s@, i as int)),
        r is Some ==> r.unwrap().0 <= 255 && i < r.unwrap().1 <= s@.len(),
{
    match e_dec(s, i) {
        Some((v, j)) => if v <= 255 {
            Some((v, j))
        } else {
            None
        },
        None => None,
    }
}

fn e_ipv4(s: &[u8], i: usize) -> (r: Option<(u32, usize)>)
    requires
        i <= s@.len(),
    ensures
        rel32(r, sp_ipv4(s@, i as int)),
        r is Some ==> i < r.unwrap().1 <= s@.len(),
{
    match e_octet(s, i) {
        Some((a, j1)) => if j1 < s.len() && s[j1] == 46 {
            match e_octet(s, j1 + 1) {
                Some((b, j2)) => if j2 < s.len() && s[j2] == 46 {
                    match e_octet(s, j2 + 1) {
                        Some((c, j3)) => if j3 < s.len() && s[j3] == 46 {
                            match e_octet(s, j3 + 1) {
                                Some((d, j4)) => Some(
                                    (a * 0x1000000 + b * 0x10000 + c * 0x100 + d, j4),
                                ),
                                None => None,
                            }
                        } else {
                            None
                        },
                        None => None,
                    }
                } else {
                    None
                },
                None => None,
            }
        } else {
            None
        },
        None => None,
    }
}

fn e_v4_at(s: &[u8], i: usize, end: usize) -> (r: Option<u32>)
    requires
        i <= s@.len(),
        end <= s@.len(),
    ensures
        r == sp_v4_at(s@, i as int, end as int),
{
    match e_ipv4(s, i) {
        Some((v, j)) => if j == end {
            Some(v)
        } else {
            None
        },
        None => None,
    }
}

fn e_hex_loop(s: &[u8], i: usize, acc: u32, cnt: u32) -> (r: Option<(u32, usize)>)
    requires
        i <= s@.len(),
        acc <= 0xFFFF,
    ensures
        rel32(r, sp_hex_loop(s@, i as int, acc, cnt)),
        r is Some ==> r.unwrap().0 <= 0xFFFF && i <= r.unwrap().1 <= s@.len(),
    decreases s@.len() - i,
{
    if i < s.len() && e_hex_val(s[i]).is_some() {
        if cnt >= 4 || acc > 0xFFF {
            None
        } else {
            let h = e_hex_val(s[i]).unwrap();
            e_hex_loop(s, i + 1, acc * 16 + h, cnt + 1)
        }
    } else {
        Some((acc, i))
    }
}

fn e_hex_val(b: u8) -> (r: Option<u32>)
    ensures
        r == hex_val(b),
        r is Some ==> r.unwrap() <= 15,
{
    if 48 <= b && b <= 57 {
        Some((b - 48) as u32)
    } else if 97 <= b && b <= 102 {
        Some((b - 97 + 10) as u32)
    } else if 65 <= b && b <= 70 {
        Some((b - 65 + 10) as u32)
    } else {
        None
    }
}

fn e_group(s: &[u8], i: usize) -> (r: Option<(u32, usize)>)
    requires
        i <= s@.len(),
    ensures
        rel32(r, sp_group(s@, i as int)),
        r is Some ==> r.unwrap().0 <= 0xFFFF && i < r.unwrap().1 <= s@.len(),
{
    if i < s.len() && e_hex_val(s[i]).is_some() {
        let h = e_hex_val(s[i]).unwrap();
        e_hex_loop(s, i + 1, h, 1)
    } else {
        None
    }
}

pub open spec fn rel_tail(r: Option<(u128, u32)>, m: Option<(int, u32)>) -> bool {
    match r {
        Some((v, c)) => m == Some((v as int, c)),
        None => m is None,
    }
}

fn e_tail(s: &[u8], i: usize, end: usize, val: u128, cnt: u32) -> (r: Option<(u128, u32)>)
    requires
        i <= end <= s@.len(),
        cnt <= 8,
        (val as int) < pow2((16 * cnt) as nat),
    ensures
        rel_tail(r, sp_tail(s@, i as int, end as int, val as int, cnt)),
        r is Some ==> r.unwrap().1 <= 8 && (r.unwrap().0 as int) < pow2(
            (16 * r.unwrap().1) as nat,
        ),
    decreases end - i,
{
    if i == end {
        Some((val, cnt))
    } else if cnt >= 8 {
        None
    } else if cnt <= 6 && e_v4_at(s, i, end).is_some() {
        let v4 = e_v4_at(s, i, end).unwrap();
        proof {
            lemma_pow2_128();
            lemma2_to64();
            lemma_shift_add(val as int, (16 * cnt) as nat, 32, v4 as int);
            lemma_pow2_le((16 * cnt + 32) as nat, 128);
        }
        Some((val * 0x100000000 + v4 as u128, cnt + 2))
    } else {
        match e_group(s, i) {
            Some((g, j)) => {
                proof {
                    lemma_pow2_128();
                    lemma2_to64();
                    lemma_shift_add(val as int, (16 * cnt) as nat, 16, g as int);
                    lemma_pow2_le((16 * cnt + 16) as nat, 128);
                }
                let v2 = val * 0x10000 + g as u128;
                if j == end {
                    Some((v2, cnt + 1))
                } else if i < j && j < end && s[j] == 58 && j + 1 < end && s[j + 1] != 58 {
                    e_tail(s, j + 1, end, v2, cnt + 1)
                } else {
                    None
                }
            },
            None => None,
        }
    }
}

fn e_head(s: &[u8], i: usize, end: usize, val: u128, cnt: u32) -> (r: Option<u128>)
    requires
        i <= end <= s@.len(),
        cnt <= 8,
        (val as int) < pow2((16 * cnt) as nat),
    ensures
        r == sp_head(s@, i as int, end as int, val as int, cnt),
    decreases end - i,
{
    if cnt == 6 && e_v4_at(s, i, end).is_some() {
        let v4 = e_v4_at(s, i, end).unwrap();
        proof {
            lemma_pow2_128();
            lemma2_to64();
            lemma_shift_add(val as int, 96, 32, v4 as int);
        }
        Some(val * 0x100000000 + v4 as u128)
    } else if cnt >= 8 {
        None
    } else {
        match e_group(s, i) {
            Some((g, j)) => {
                proof {
                    lemma_pow2_128();
                    lemma2_to64();
                    lemma_shift_add(val as int, (16 * cnt) as nat, 16, g as int);
                    lemma_pow2_le((16 * cnt + 16) as nat, 128);
                }
                let v2 = val * 0x10000 + g as u128;
                if j == end {
                    if cnt == 7 {
                        Some(v2)
                    } else {
                        None
                    }
                } else if i < j && j < end && s[j] == 58 {
                    if j + 1 < end && s[j + 1] == 58 {
                        match e_tail(s, j + 2, end, 0, 0) {
                            Some((tval, tcnt)) => if cnt + 1 + tcnt <= 7 {
                                proof {
                                    lemma_pow2_128();
                                    lemma_pow2_pos((16 * (7 - cnt)) as nat);
                                    lemma_shift_add(
                                        v2 as int,
                                        (16 * (cnt + 1)) as nat,
                                        (16 * (7 - cnt)) as nat,
                                        0,
                                    );
                                    lemma_pow2_le((16 * tcnt) as nat, (16 * (7 - cnt)) as nat);
                                    lemma_shift_add(
                                        v2 as int,
                                        (16 * (cnt + 1)) as nat,
                                        (16 * (7 - cnt)) as nat,
                                        tval as int,
                                    );
                                }
                                let shifted = mul_pow16(v2, 7 - cnt);
                                Some(shifted + tval)
                            } else {
                                None
                            },
                            None => None,
                        }
                    } else {
                        e_head(s, j + 1, end, v2, cnt + 1)
                    }
                } else {
                    None
                }
            },
            None => None,
        }
    }
}

fn e_ipv6(s: &[u8], start: usize, end: usize) -> (r: Option<u128>)
    requires
        start <= end <= s@.len(),
    ensures
        r == sp_ipv6(s@, start as int, end as int),
{
    proof {
        lemma2_to64();
    }
    if end - start >= 2 && s[start] == 58 && s[start + 1] == 58 {
        match e_tail(s, start + 2, end, 0, 0) {
            Some((tval, tcnt)) => if tcnt <= 7 {
                Some(tval)
            } else {
                None
            },
            None => None,
        }
    } else {
        e_head(s, start, end, 0, 0)
    }
}

fn e_find(s: &[u8], i: usize, b: u8) -> (r: Option<usize>)
    requires
        i <= s@.len(),
    ensures
        match r {
            Some(k) => sp_find(s@, i as int, b) == Some(k as int) && i <= k < s@.len()
                && s@[k as int] == b,
            None => sp_find(s@, i as int, b) is None,
        },
    decreases s@.len() - i,
{
    if i < s.len() {
        if s[i] == b {
            Some(i)
        } else {
            e_find(s, i + 1, b)
        }
    } else {
        None
    }
}

fn e_port_at(s: &[u8], i: usize) -> (r: Option<u16>)
    requires
        i <= s@.len(),
    ensures
        r == sp_port_at(s@, i as int),
{
    match e_dec(s, i) {
        Some((v, j)) => if j == s.len() && v <= 65535 {
            Some(v as u16)
        } else {
            None
        },
        None => None,
    }
}

fn e_rule(s: &[u8]) -> (r: Option<ConfigAddr>)
    ensures
        r == rule_of(s@),
{
    let sock = e_sock(s);
    if sock.is_some() {
        return Some(ConfigAddr::WithPort(sock.unwrap()));
    }
    let ip = e_ip(s);
    if ip.is_some() {
        return Some(ConfigAddr::OnlyIp(ip.unwrap()));
    }
    let net = e_cidr(s);
    if net.is_some() {
        return Some(ConfigAddr::Range(net.unwrap()));
    }
    None
}

fn e_ip(s: &[u8]) -> (r: Option<IpRepr>)
    ensures
        r == ip_of(s@),
{
    match e_v4_at(s, 0, s.len()) {
        Some(v) => Some(IpRepr::V4(v)),
        None => match e_ipv6(s, 0, s.len()) {
            Some(v) => Some(IpRepr::V6(v)),
            None => None,
        },
    }
}

fn e_sock(s: &[u8]) -> (r: Option<Addr>)
    ensures
        r == sock_of(s@),
{
    if s.len() > 0 && s[0] == 91 {
        match e_find(s, 0, 93) {
            Some(k) => match e_ipv6(s, 1, k) {
                Some(ip) => if k + 1 < s.len() && s[k + 1] == 58 {
                    match e_port_at(s, k + 2) {
                        Some(p) => Some(Addr { ip: IpRepr::V6(ip), port: p }),
                        None => None,
                    }
                } else {
                    None
                },
                None => None,
            },
            None => None,
        }
    } else {
        match e_ipv4(s, 0) {
            Some((v, j)) => if j < s.len() && s[j] == 58 {
                match e_port_at(s, j + 1) {
                    Some(p) => Some(Addr { ip: IpRepr::V4(v), port: p }),
                    None => None,
                }
            } else {
                None
            },
            None => None,
        }
    }
}

fn e_cidr(s: &[u8]) -> (r: Option<IpNetRepr>)
    ensures
        r == cidr_of(s@),
{
    match e_find(s, 0, 47) {
        Some(k) => {
            let n = s.len();
            let pfx = match e_dec(s, k + 1) {
                Some((v, j)) => if j == n {
                    Some(v)
                } else {
                    None
                },
                None => None,
            };
            match pfx {
                Some(p) => {
                    let v4 = e_v4_at(s, 0, k);
                    if v4.is_some() && p <= 32 {
                        Some(IpNetRepr::V4 { addr: v4.unwrap(), prefix: p as u8 })
                    } else {
                        let v6 = e_ipv6(s, 0, k);
                        if v6.is_some() && p <= 128 {
                            Some(IpNetRepr::V6 { addr: v6.unwrap(), prefix: p as u8 })
                        } else {
                            None
                        }
                    }
                },
                None => None,
            }
        },
        None => None,
    }
}

impl ConfigAddr {
    /// Parse an address rule from a string; the three forms are tried in
    /// order (endpoint, bare IP, CIDR) and the first that accepts wins.
    pub fn from_str(s: &str) -> (r: Result<ConfigAddr, InvalidAddr>)
        ensures
            match r {
                Ok(a) => rule_of(s.spec_bytes()) == Some(a),
                Err(_) => rule_of(s.spec_bytes()) is None,
            },
    {
        let b: &[u8] = s.as_bytes();
        match e_rule(b) {
            Some(a) => Ok(a),
            None => Err(InvalidAddr),
        }
    }
}

// ---------------------------------------------------------------------------
// Matching.
// ---------------------------------------------------------------------------

/// The divisor that drops the host bits of an IPv4 address under `prefix`.
pub open spec fn v4_host_div(prefix: u8) -> int {
    if prefix >= 32 {
        1
    } else {
        pow2((32 - prefix) as nat) as int
    }
}

/// The divisor that drops the host bits of an IPv6 address under `prefix`.
pub open spec fn v6_host_div(prefix: u8) -> int {
    if prefix >= 128 {
        1
    } else {
        pow2((128 - prefix) as nat) as int
    }
}

impl IpNetRepr {
    /// Standard CIDR containment: the candidate address with its host bits
    /// dropped equals the block's base address with its host bits dropped.
    /// An address of the other family is never contained.
    pub open spec fn spec_contains(self, ip: IpRepr) -> bool {
        match self {
            IpNetRepr::V4 { addr, prefix } => match ip {
                IpRepr::V4(x) => (x as int) / v4_host_div(prefix) == (addr as int) / v4_host_div(
                    prefix,
                ),
                IpRepr::V6(_) => false,
            },
            IpNetRepr::V6 { addr, prefix } => match ip {
                IpRepr::V6(x) => (x as int) / v6_host_div(prefix) == (addr as int) / v6_host_div(
                    prefix,
                ),
                IpRepr::V4(_) => false,
            },
        }
    }

    pub fn contains(&self, ip: IpRepr) -> (r: bool)
        ensures
            r == self.spec_contains(ip),
    {
        match self {
            IpNetRepr::V4 { addr, prefix } => match ip {
                IpRepr::V4(x) => {
                    if *prefix >= 32 {
                        x == *addr
                    } else {
                        proof {
                            lemma_pow2_le((32 - *prefix) as nat, 32);
                            lemma2_to64();
                        }
                        let d = pow2_u128((32 - *prefix) as u32) as u64;
                        (x as u64) / d == (*addr as u64) / d
                    }
                },
                IpRepr::V6(_) => false,
            },
            IpNetRepr::V6 { addr, prefix } => match ip {
                IpRepr::V6(x) => {
                    if *prefix >= 128 {
                        x == *addr
                    } else if *prefix == 0 {
                        proof {
                            lemma_pow2_128();
                            vstd::arithmetic::div_mod::lemma_basic_div(
                                x as int,
                                pow2(128) as int,
                            );
                            vstd::arithmetic::div_mod::lemma_basic_div(
                                *addr as int,
                                pow2(128) as int,
                            );
                        }
                        true
                    } else {
                        proof {
                            lemma_pow2_le((128 - *prefix) as nat, 127);
                            lemma_pow2_pos((128 - *prefix) as nat);
                        }
                        let d = pow2_u128((128 - *prefix) as u32);
                        x / d == *addr / d
                    }
                },
                IpRepr::V4(_) => false,
            },
        }
    }
}

impl ConfigAddr {
    /// What this rule matches: an exact endpoint, an IP on any port, or a
    /// CIDR block on any port.
    pub open spec fn spec_matches(self, addr: Addr) -> bool {
        match self {
            ConfigAddr::WithPort(e) => addr.ip == e.ip && addr.port == e.port,
            ConfigAddr::OnlyIp(ip) => addr.ip == ip,
            ConfigAddr::Range(net) => net.spec_contains(addr.ip),
        }
    }

    /// Pure, total classification of one endpoint against this rule.
    pub fn matches(&self, addr: Addr) -> (r: bool)
        ensures
            r == self.spec_matches(addr),
    {
        match self {
            ConfigAddr::WithPort(e) => addr.ip == e.ip && addr.port == e.port,
            ConfigAddr::OnlyIp(ip) => addr.ip == *ip,
            ConfigAddr::Range(net) => net.contains(addr.ip),
        }
    }
}

// ---------------------------------------------------------------------------
// Laws of the parser and the matcher.
// ---------------------------------------------------------------------------

/// A valid endpoint string parses as a `WithPort` rule, and that rule
/// matches exactly the endpoint it names: the same IP with the same port,
/// and nothing else.
pub proof fn lemma_endpoint_rule_exact(s: Seq<u8>, q: Addr)
    requires
        sock_of(s) is Some,
    ensures
        rule_of(s) == Some(ConfigAddr::WithPort(sock_of(s).unwrap())),
        ConfigAddr::WithPort(sock_of(s).unwrap()).spec_matches(q) <==> (q.ip
            == sock_of(s).unwrap().ip && q.port == sock_of(s).unwrap().port),
{
}

/// A bare IPv4 address string never parses as an endpoint: the address
/// runs to the end of the string, so no port can follow.
pub proof fn lemma_bare_v4_not_endpoint(s: Seq<u8>)
    requires
        ipv4_of(s) is Some,
    ensures
        sock_of(s) is None,
{
}

/// Every position of a decimal run is a digit, the run ends at the first
/// non-digit, and the accumulated value never shrinks.
proof fn lemma_dec_loop_digits(s: Seq<u8>, i: int, acc: u32)
    requires
        0 <= i <= s.len(),
        sp_dec_loop(s, i, acc) is Some,
    ensures
        ({
            let (v, j) = sp_dec_loop(s, i, acc).unwrap();
            &&& i <= j <= s.len()
            &&& forall|k: int| i <= k < j ==> is_dec(s[k])
            &&& (j == s.len() || !is_dec(s[j]))
            &&& v >= acc
        }),
    decreases s.len() - i,
{
    if i < s.len() && is_dec(s[i]) && acc <= 99999 {
        lemma_dec_loop_digits(s, i + 1, (acc * 10 + dec_val(s[i])) as u32);
    }
}

/// An accepted IPv4 octet is at most three digits long: a longer run
/// either starts with a forbidden leading zero or exceeds 255.
proof fn lemma_octet_short(s: Seq<u8>, i: int)
    requires
        0 <= i <= s.len(),
        sp_octet(s, i) is Some,
    ensures
        ({
            let (v, j) = sp_octet(s, i).unwrap();
            &&& i < j <= i + 3
            &&& j <= s.len()
            &&& forall|k: int| i <= k < j ==> is_dec(s[k])
            &&& (j == s.len() || !is_dec(s[j]))
        }),
{
    let (v, j) = sp_octet(s, i).unwrap();
    if s[i] == 48 {
        // A single "0": another digit after it would be a leading zero.
    } else {
        lemma_dec_loop_digits(s, i + 1, dec_val(s[i]));
        if j > i + 3 {
            let a0 = dec_val(s[i]);
            let a1 = (a0 * 10 + dec_val(s[i + 1])) as u32;
            let a2 = (a1 * 10 + dec_val(s[i + 2])) as u32;
            let a3 = (a2 * 10 + dec_val(s[i + 3])) as u32;
            assert(sp_dec_loop(s, i + 1, a0) == sp_dec_loop(s, i + 2, a1));
            assert(sp_dec_loop(s, i + 2, a1) == sp_dec_loop(s, i + 3, a2));
            assert(sp_dec_loop(s, i + 3, a2) == sp_dec_loop(s, i + 4, a3));
            lemma_dec_loop_digits(s, i + 4, a3);
            assert(v >= 1000);
        }
    }
}

/// A run of one to three digits, ended by something that is not a hex
/// digit, reads as one IPv6 group ending at the same place.
proof fn lemma_group_of_digit_run(s: Seq<u8>, i: int, j: int)
    requires
        0 <= i < j <= i + 3,
        j <= s.len(),
        forall|k: int| i <= k < j ==> is_dec(s[k]),
        j == s.len() || hex_val(s[j]) is None,
    ensures
        sp_group(s, i) is Some,
        sp_group(s, i).unwrap().1 == j,
{
    let h0 = hex_val(s[i]).unwrap();
    if j == i + 1 {
        assert(sp_hex_loop(s, i + 1, h0, 1) == Some((h0, j)));
    } else {
        let h1 = (h0 * 16 + hex_val(s[i + 1]).unwrap()) as u32;
        if j == i + 2 {
            assert(sp_hex_loop(s, i + 1, h0, 1) == sp_hex_loop(s, i + 2, h1, 2));
            assert(sp_hex_loop(s, i + 2, h1, 2) == Some((h1, j)));
        } else {
            let h2 = (h1 * 16 + hex_val(s[i + 2]).unwrap()) as u32;
            assert(sp_hex_loop(s, i + 1, h0, 1) == sp_hex_loop(s, i + 2, h1, 2));
            assert(sp_hex_loop(s, i + 2, h1, 2) == sp_hex_loop(s, i + 3, h2, 3));
            assert(sp_hex_loop(s, i + 3, h2, 3) == Some((h2, j)));
        }
    }
}

/// A bare IPv6 address string never parses as an endpoint either: the
/// endpoint forms need a bracket or a dotted quad followed by a colon,
/// and an IPv6 address offers neither.
pub proof fn lemma_bare_v6_not_endpoint(s: Seq<u8>)
    requires
        ipv6_of(s) is Some,
    ensures
        sock_of(s) is None,
{
    if s.len() > 0 && s[0] == 91 {
        // '[' opens no IPv6 address: it is neither a colon nor a hex digit.
        assert(ipv6_of(s) is None);
    } else {
        if sp_ipv4(s, 0) is Some {
            // The string would begin with an octet and a dot; read as an
            // IPv6 address, that octet is a group ended by the dot, and a
            // group must be followed by a colon or the end.
            let (a, j1) = sp_octet(s, 0).unwrap();
            lemma_octet_short(s, 0);
            lemma_group_of_digit_run(s, 0, j1);
            assert(ipv6_of(s) is None);
        }
    }
}

/// A valid bare-IP string of either family parses as an `OnlyIp` rule,
/// and that rule matches exactly the endpoints with that IP, whatever
/// their port.
pub proof fn lemma_only_ip_rule_exact(s: Seq<u8>, q: Addr)
    requires
        ip_of(s) is Some,
    ensures
        sock_of(s) is None,
        rule_of(s) == Some(ConfigAddr::OnlyIp(ip_of(s).unwrap())),
        ConfigAddr::OnlyIp(ip_of(s).unwrap()).spec_matches(q) <==> q.ip == ip_of(s).unwrap(),
{
    if ipv4_of(s) is Some {
        lemma_bare_v4_not_endpoint(s);
    } else {
        lemma_bare_v6_not_endpoint(s);
    }
}

/// What `sp_find` returns really is an occurrence of the byte.
proof fn lemma_find_found(s: Seq<u8>, i: int, b: u8)
    requires
        0 <= i,
        sp_find(s, i, b) is Some,
    ensures
        ({
            let k = sp_find(s, i, b).unwrap();
            i <= k < s.len() && s[k] == b
        }),
    decreases s.len() - i,
{
    if i < s.len() && s[i] != b {
        lemma_find_found(s, i + 1, b);
    }
}

/// Every position of a hex-group run holds a hex digit.
proof fn lemma_hex_loop_cov(s: Seq<u8>, i: int, acc: u32, cnt: u32)
    requires
        0 <= i <= s.len(),
        sp_hex_loop(s, i, acc, cnt) is Some,
    ensures
        ({
            let (g, j) = sp_hex_loop(s, i, acc, cnt).unwrap();
            i <= j <= s.len() && forall|k: int| i <= k < j ==> hex_val(s[k]) is Some
        }),
    decreases s.len() - i,
{
    if i < s.len() && hex_val(s[i]) is Some && !(cnt >= 4 || acc > 0xFFF) {
        lemma_hex_loop_cov(s, i + 1, (acc * 16 + hex_val(s[i]).unwrap()) as u32, (cnt + 1) as u32);
    }
}

/// Every position of an accepted IPv4 address is a digit or a dot.
proof fn lemma_ipv4_cov(s: Seq<u8>, i: int)
    requires
        0 <= i <= s.len(),
        sp_ipv4(s, i) is Some,
    ensures
        ({
            let (v, j) = sp_ipv4(s, i).unwrap();
            i < j <= s.len() && forall|k: int| i <= k < j ==> is_dec(s[k]) || s[k] == 46
        }),
{
    let (v, j) = sp_ipv4(s, i).unwrap();
    let (a, j1) = sp_octet(s, i).unwrap();
    let (b, j2) = sp_octet(s, j1 + 1).unwrap();
    let (c, j3) = sp_octet(s, j2 + 1).unwrap();
    let (d, j4) = sp_octet(s, j3 + 1).unwrap();
    lemma_octet_short(s, i);
    lemma_octet_short(s, j1 + 1);
    lemma_octet_short(s, j2 + 1);
    lemma_octet_short(s, j3 + 1);
    assert forall|k: int| i <= k < j implies is_dec(s[k]) || s[k] == 46 by {
        if k < j1 {
        } else if k == j1 {
        } else if k < j2 {
        } else if k == j2 {
        } else if k < j3 {
        } else if k == j3 {
        }
    }
}

/// Every position after a `"::"` holds a hex digit, a colon or a dot.
proof fn lemma_tail_cov(s: Seq<u8>, i: int, end: int, val: int, cnt: u32)
    requires
        0 <= i <= end <= s.len(),
        sp_tail(s, i, end, val, cnt) is Some,
    ensures
        forall|k: int| i <= k < end ==> hex_val(s[k]) is Some || s[k] == 58 || s[k] == 46,
    decreases end - i,
{
    if i == end {
    } else if cnt >= 8 {
    } else if cnt <= 6 && sp_v4_at(s, i, end) is Some {
        lemma_ipv4_cov(s, i);
        assert forall|k: int| i <= k < end implies hex_val(s[k]) is Some || s[k] == 58 || s[k]
            == 46 by {
            if is_dec(s[k]) {
                assert(hex_val(s[k]) is Some);
            }
        }
    } else {
        match sp_group(s, i) {
            Some((g, j)) => {
                lemma_hex_loop_cov(s, i + 1, hex_val(s[i]).unwrap(), 1);
                if j == end {
                } else if i < j && j < end && s[j] == 58 && j + 1 < end && s[j + 1] != 58 {
                    let v2 = val * 0x10000 + g;
                    lemma_tail_cov(s, j + 1, end, v2, (cnt + 1) as u32);
                }
            },
            None => {},
        }
    }
}

/// Every position of the part of an IPv6 address before any `"::"` holds
/// a hex digit, a colon or a dot.
proof fn lemma_head_cov(s: Seq<u8>, i: int, end: int, val: int, cnt: u32)
    requires
        0 <= i <= end <= s.len(),
        sp_head(s, i, end, val, cnt) is Some,
    ensures
        forall|k: int| i <= k < end ==> hex_val(s[k]) is Some || s[k] == 58 || s[k] == 46,
    decreases end - i,
{
    if cnt == 6 && sp_v4_at(s, i, end) is Some {
        lemma_ipv4_cov(s, i);
        assert forall|k: int| i <= k < end implies hex_val(s[k]) is Some || s[k] == 58 || s[k]
            == 46 by {
            if is_dec(s[k]) {
                assert(hex_val(s[k]) is Some);
            }
        }
    } else if cnt >= 8 {
    } else {
        match sp_group(s, i) {
            Some((g, j)) => {
                lemma_hex_loop_cov(s, i + 1, hex_val(s[i]).unwrap(), 1);
                let v2 = val * 0x10000 + g;
                if j == end {
                } else if i < j && j < end && s[j] == 58 {
                    if j + 1 < end && s[j + 1] == 58 {
                        lemma_tail_cov(s, j + 2, end, 0, 0);
                    } else {
                        lemma_head_cov(s, j + 1, end, v2, (cnt + 1) as u32);
                    }
                }
            },
            None => {},
        }
    }
}

/// Every position of an accepted IPv6 address holds a hex digit, a colon
/// or a dot.
proof fn lemma_ipv6_cov(s: Seq<u8>, start: int, end: int)
    requires
        0 <= start <= end <= s.len(),
        sp_ipv6(s, start, end) is Some,
    ensures
        forall|k: int| start <= k < end ==> hex_val(s[k]) is Some || s[k] == 58 || s[k] == 46,
{
    if start + 2 <= end && s[start] == 58 && s[start + 1] == 58 {
        lemma_tail_cov(s, start + 2, end, 0, 0);
    } else {
        lemma_head_cov(s, start, end, 0, 0);
    }
}

/// A valid CIDR string parses as a `Range` rule — the slash in it keeps
/// it from reading as a bare IP or an endpoint — and that rule matches
/// exactly the endpoints whose IP the block contains under prefix-masking
/// semantics, whatever their port.
pub proof fn lemma_range_rule_exact(s: Seq<u8>, q: Addr)
    requires
        cidr_of(s) is Some,
    ensures
        sock_of(s) is None,
        ip_of(s) is None,
        rule_of(s) == Some(ConfigAddr::Range(cidr_of(s).unwrap())),
        ConfigAddr::Range(cidr_of(s).unwrap()).spec_matches(q) <==> cidr_of(
            s,
        ).unwrap().spec_contains(q.ip),
{
    let n = s.len() as int;
    let k = sp_find(s, 0, 47).unwrap();
    lemma_find_found(s, 0, 47);
    if ipv4_of(s) is Some {
        lemma_ipv4_cov(s, 0);
        assert(is_dec(s[k]) || s[k] == 46);
    }
    if ipv6_of(s) is Some {
        lemma_ipv6_cov(s, 0, n);
        assert(hex_val(s[k]) is Some || s[k] == 58 || s[k] == 46);
    }
    if sock_of(s) is Some {
        if s.len() > 0 && s[0] == 91 {
            let kb = sp_find(s, 0, 93).unwrap();
            lemma_find_found(s, 0, 93);
            let p = sp_port_at(s, kb + 2).unwrap();
            let (pv, pj) = sp_dec(s, kb + 2).unwrap();
            lemma_dec_loop_digits(s, kb + 3, dec_val(s[kb + 2]));
            lemma_ipv6_cov(s, 1, kb);
            // The slash can stand nowhere: not in the address part, not
            // on the brackets or the colon, and not among the port digits.
            assert(s[k] != 47);
        } else {
            let (v, j) = sp_ipv4(s, 0).unwrap();
            let p = sp_port_at(s, j + 1).unwrap();
            let (pv, pj) = sp_dec(s, j + 1).unwrap();
            lemma_dec_loop_digits(s, j + 2, dec_val(s[j + 1]));
            lemma_ipv4_cov(s, 0);
            assert(s[k] != 47);
        }
    }
}

} // verus!
