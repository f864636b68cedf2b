//! The parts of CBOR that the wire formats of this library use: item heads in
//! their shortest form, and byte strings.
use vstd::prelude::*;

verus! {

pub open spec fn pow256(n: nat) -> nat
    decreases n,
{
    if n == 0 {
        1
    } else {
        256 * pow256((n - 1) as nat)
    }
}

/// The `n` low bytes of `x`, most significant first.
pub open spec fn be_bytes(x: nat, n: nat) -> Seq<u8>
    decreases n,
{
    if n == 0 {
        Seq::empty()
    } else {
        be_bytes(x / 256, (n - 1) as nat).push((x % 256) as u8)
    }
}

/// The number that bytes spell, most significant first.
pub open spec fn be_value(s: Seq<u8>) -> nat
    decreases s.len(),
{
    if s.len() == 0 {
        0
    } else {
        (be_value(s.drop_last()) * 256 + s.last()) as nat
    }
}

/// Bytes that follow the initial byte for a given additional-information value.
pub open spec fn arg_len(info: u8) -> nat {
    if info < 24 {
        0
    } else if info == 24 {
        1
    } else if info == 25 {
        2
    } else if info == 26 {
        4
    } else {
        8
    }
}

/// The additional-information value of the shortest head for `arg`.
pub open spec fn shortest_info(arg: u64) -> u8 {
    if arg < 24 {
        arg as u8
    } else if arg < 256 {
        24
    } else if arg < 65536 {
        25
    } else if arg < 4294967296 {
        26
    } else {
        27
    }
}

/// The head of a data item of major type `major` with argument `arg`, shortest form.
pub open spec fn head(major: u8, arg: u64) -> Seq<u8> {
    seq![(major * 32 + shortest_info(arg)) as u8] + be_bytes(arg as nat, arg_len(shortest_info(arg)))
}

/// Reads a head at `pos`: its major type, its argument and where the item goes on.
pub open spec fn parse_head(s: Seq<u8>, pos: int) -> Option<(u8, u64, int)> {
    if 0 <= pos < s.len() {
        let b = s[pos];
        let info = (b % 32) as u8;
        if info > 27 {
            None
        } else if pos + 1 + arg_len(info) <= s.len() {
            let v: nat = if info < 24 {
                info as nat
            } else {
                be_value(s.subrange(pos + 1, pos + 1 + arg_len(info)))
            };
            Some(((b / 32) as u8, v as u64, pos + 1 + arg_len(info)))
        } else {
            None
        }
    } else {
        None
    }
}

/// A byte string: its head, then its bytes.
pub open spec fn bstr(b: Seq<u8>) -> Seq<u8> {
    head(2, b.len() as u64) + b
}

/// Reads a byte string at `pos`: its bytes and where the item ends.
pub open spec fn parse_bstr(s: Seq<u8>, pos: int) -> Option<(Seq<u8>, int)> {
    match parse_head(s, pos) {
        Some((m, n, p)) => if m == 2 && p + n <= s.len() {
            Some((s.subrange(p, p + n), p + n))
        } else {
            None
        },
        None => None,
    }
}

/// `s` holds `item` at `pos`.
pub open spec fn holds_at(s: Seq<u8>, pos: int, item: Seq<u8>) -> bool {
    0 <= pos && pos + item.len() <= s.len() && s.subrange(pos, pos + item.len()) == item
}

pub proof fn lemma_pow256_values()
    ensures
        pow256(0) == 1,
        pow256(1) == 256,
        pow256(2) == 65536,
        pow256(4) == 4294967296,
        pow256(8) == 18446744073709551616,
{
    reveal_with_fuel(pow256, 9);
}

pub proof fn lemma_be_round_trip(x: nat, n: nat)
    requires
        x < pow256(n),
    ensures
        be_bytes(x, n).len() == n,
        be_value(be_bytes(x, n)) == x,
    decreases n,
{
    if n > 0 {
        let p = pow256((n - 1) as nat);
        assert(x / 256 < p) by (nonlinear_arith)
            requires
                x < 256 * p,
        ;
        lemma_be_round_trip(x / 256, (n - 1) as nat);
        assert(be_bytes(x, n).drop_last() == be_bytes(x / 256, (n - 1) as nat));
    }
}

pub proof fn lemma_be_value_bound(s: Seq<u8>)
    ensures
        be_value(s) < pow256(s.len()),
    decreases s.len(),
{
    if s.len() > 0 {
        lemma_be_value_bound(s.drop_last());
        let v = be_value(s.drop_last());
        let p = pow256((s.len() - 1) as nat);
        let b = s.last() as nat;
        assert(v * 256 + b < 256 * p) by (nonlinear_arith)
            requires
                v < p,
                b < 256,
        ;
    }
}

/// Heads read back as written.
pub proof fn lemma_head_round_trip(s: Seq<u8>, pos: int, major: u8, arg: u64)
    requires
        major < 8,
        holds_at(s, pos, head(major, arg)),
    ensures
        parse_head(s, pos) == Some((major, arg, pos + head(major, arg).len())),
{
    lemma_pow256_values();
    let info = shortest_info(arg);
    let n = arg_len(info);
    if arg < 24 {
        assert(n == 0);
    } else if arg < 256 {
        assert(n == 1);
    } else if arg < 65536 {
        assert(n == 2);
    } else if arg < 4294967296 {
        assert(n == 4);
    } else {
        assert(n == 8);
    }
    if arg >= 24 {
        lemma_be_round_trip(arg as nat, n);
    }
    let h = head(major, arg);
    assert(h.len() == 1 + n);
    assert(s[pos] == h[0]);
    assert(s.subrange(pos + 1, pos + 1 + n) =~= h.subrange(1, 1 + n as int));
    assert(h.subrange(1, 1 + n as int) =~= be_bytes(arg as nat, n));
}

/// Byte strings read back as written.
pub proof fn lemma_bstr_round_trip(s: Seq<u8>, pos: int, b: Seq<u8>)
    requires
        b.len() < pow256(8),
        holds_at(s, pos, bstr(b)),
    ensures
        parse_bstr(s, pos) == Some((b, pos + bstr(b).len())),
{
    lemma_pow256_values();
    let h = head(2, b.len() as u64);
    lemma_holds_split(s, pos, h, b);
    lemma_head_round_trip(s, pos, 2, b.len() as u64);
}

/// Where `a ++ b` stands at `pos`, `a` stands at `pos` and `b` right after it.
pub proof fn lemma_holds_split(s: Seq<u8>, pos: int, a: Seq<u8>, b: Seq<u8>)
    requires
        holds_at(s, pos, a + b),
    ensures
        holds_at(s, pos, a),
        holds_at(s, pos + a.len(), b),
{
    let t = s.subrange(pos, pos + (a + b).len());
    assert(s.subrange(pos, pos + a.len()) =~= t.subrange(0, a.len() as int));
    assert(t.subrange(0, a.len() as int) =~= a);
    assert(s.subrange(pos + a.len(), pos + a.len() + b.len()) =~= t.subrange(
        a.len() as int,
        t.len() as int,
    ));
    assert(t.subrange(a.len() as int, t.len() as int) =~= b);
}

fn push_be(out: &mut Vec<u8>, x: u64, n: usize)
    requires
        n <= 8,
    ensures
        final(out)@ == old(out)@ + be_bytes(x as nat, n as nat),
    decreases n,
{
    if n > 0 {
        push_be(out, x / 256, n - 1);
        out.push((x % 256) as u8);
        assert(final(out)@ =~= old(out)@ + be_bytes(x as nat, n as nat));
    } else {
        assert(final(out)@ =~= old(out)@ + be_bytes(x as nat, n as nat));
    }
}

/// Appends the shortest head for `major` and `arg`.
pub fn write_head(out: &mut Vec<u8>, major: u8, arg: u64)
    requires
        major < 8,
    ensures
        final(out)@ == old(out)@ + head(major, arg),
{
    let info: u8 = if arg < 24 {
        arg as u8
    } else if arg < 256 {
        24
    } else if arg < 65536 {
        25
    } else if arg < 4294967296 {
        26
    } else {
        27
    };
    let n: usize = if info < 24 {
        0
    } else if info == 24 {
        1
    } else if info == 25 {
        2
    } else if info == 26 {
        4
    } else {
        8
    };
    out.push(major * 32 + info);
    push_be(out, arg, n);
    assert(final(out)@ =~= old(out)@ + head(major, arg));
}

/// Appends a byte string.
pub fn write_bstr(out: &mut Vec<u8>, b: &[u8])
    ensures
        final(out)@ == old(out)@ + bstr(b@),
{
    write_head(out, 2, b.len() as u64);
    let mut i: usize = 0;
    let ghost start = out@;
    while i < b.len()
        invariant
            i <= b@.len(),
            out@ == start + b@.subrange(0, i as int),
        decreases b@.len() - i,
    {
        out.push(b[i]);
        i = i + 1;
        assert(out@ =~= start + b@.subrange(0, i as int));
    }
    assert(b@.subrange(0, b@.len() as int) =~= b@);
    assert(final(out)@ =~= old(out)@ + bstr(b@));
}

/// Reads a head at `pos`.
pub fn read_head(s: &[u8], pos: usize) -> (r: Option<(u8, u64, usize)>)
    ensures
        match r {
            Some((m, a, p)) => parse_head(s@, pos as int) == Some((m, a, p as int)),
            None => parse_head(s@, pos as int) is None,
        },
        r matches Some((_, _, p)) ==> pos < p <= s@.len(),
{
    if pos >= s.len() {
        return None;
    }
    let b = s[pos];
    let info = b % 32;
    if info > 27 {
        return None;
    }
    let n: usize = if info < 24 {
        0
    } else if info == 24 {
        1
    } else if info == 25 {
        2
    } else if info == 26 {
        4
    } else {
        8
    };
    if n > s.len() - pos - 1 {
        return None;
    }
    if info < 24 {
        return Some((b / 32, info as u64, pos + 1));
    }
    proof {
        lemma_pow256_values();
    }
    let mut v: u64 = 0;
    let mut k: usize = 0;
    while k < n
        invariant
            n <= 8,
            pos + 1 + n <= s.len(),
            k <= n,
            v as nat == be_value(s@.subrange(pos + 1, pos + 1 + k)),
            v < pow256(k as nat),
            pow256(8) == 18446744073709551616,
        decreases n - k,
    {
        let ghost old_v = v;
        let ghost p = pow256(k as nat);
        let c = s[pos + 1 + k];
        proof {
            assert(old_v * 256 + c < 256 * p) by (nonlinear_arith)
                requires
                    old_v < p,
                    c < 256,
            ;
            lemma_pow256_monotone((k + 1) as nat, 8);
        }
        v = v * 256 + c as u64;
        k = k + 1;
        assert(s@.subrange(pos + 1, pos + 1 + k).drop_last() =~= s@.subrange(pos + 1, pos + k));
    }
    Some((b / 32, v, pos + 1 + n))
}

pub proof fn lemma_pow256_monotone(a: nat, b: nat)
    requires
        a <= b,
    ensures
        pow256(a) <= pow256(b),
    decreases b,
{
    if a < b {
        lemma_pow256_monotone(a, (b - 1) as nat);
    }
}

/// Reads a byte string at `pos`.
pub fn read_bstr(s: &[u8], pos: usize) -> (r: Option<(Vec<u8>, usize)>)
    ensures
        match r {
            Some((v, q)) => parse_bstr(s@, pos as int) == Some((v@, q as int)),
            None => parse_bstr(s@, pos as int) is None,
        },
        r matches Some((_, q)) ==> pos < q <= s@.len(),
{
    match read_head(s, pos) {
        Some((m, n, p)) => {
            if m != 2 || n > (s.len() - p) as u64 {
                return None;
            }
            let end = p + n as usize;
            let mut v: Vec<u8> = Vec::new();
            let mut i: usize = p;
            while i < end
                invariant
                    p <= i <= end,
                    end <= s@.len(),
                    v@ == s@.subrange(p as int, i as int),
                decreases end - i,
            {
                v.push(s[i]);
                i = i + 1;
                assert(v@ =~= s@.subrange(p as int, i as int));
            }
            Some((v, end))
        },
        None => None,
    }
}

} // verus!
