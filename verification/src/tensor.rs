//! Pixel layout for the models: interleaved RGB rows in, channel planes out.

use vstd::prelude::*;

verus! {

/// Channel-planar (CHW) order of `n` interleaved RGB pixels: all red values, then
/// all green, then all blue, each plane in pixel order. Entry `c * n + p` is
/// channel `c` of pixel `p`, which sits at `raw[3 * p + c]`.
pub open spec fn planar_spec(raw: Seq<u8>, n: int) -> Seq<u8> {
    Seq::new((3 * n) as nat, |i: int| raw[(i % n) * 3 + i / n])
}

/// Reorders the first `pixels` interleaved RGB pixels of `raw` (row-major, three
/// bytes each, as an RGB image buffer stores them) into channel planes.
pub fn planar_rgb(raw: &Vec<u8>, pixels: usize) -> (out: Vec<u8>)
    requires
        3 * pixels <= raw@.len(),
    ensures
        out@ == planar_spec(raw@, pixels as int),
        out@.len() == 3 * pixels,
        // channel `c` of pixel `p` sits at `c * pixels + p`
        forall|c: int, p: int| 0 <= c < 3 && 0 <= p < pixels ==> #[trigger] out@[c * pixels + p] == raw@[3 * p + c],
{
    let raw_len = raw.len();
    let mut out: Vec<u8> = Vec::with_capacity(3 * pixels);
    let mut c: usize = 0;
    while c < 3
        invariant
            c <= 3,
            3 * pixels <= raw@.len(),
            raw_len == raw@.len(),
            out@ =~= planar_spec(raw@, pixels as int).take(c * pixels),
        decreases 3 - c,
    {
        let mut p: usize = 0;
        while p < pixels
            invariant
                c < 3,
                p <= pixels,
                3 * pixels <= raw@.len(),
                raw_len == raw@.len(),
                out@ =~= planar_spec(raw@, pixels as int).take(c * pixels + p),
            decreases pixels - p,
        {
            proof {
                vstd::arithmetic::div_mod::lemma_fundamental_div_mod_converse(
                    (c * pixels + p) as int,
                    pixels as int,
                    c as int,
                    p as int,
                );
                assert(c * pixels + p < 3 * pixels) by (nonlinear_arith)
                    requires
                        c < 3,
                        p < pixels,
                ;
                assert(p * 3 + c < 3 * pixels) by (nonlinear_arith)
                    requires
                        c < 3,
                        p < pixels,
                ;
            }
            out.push(raw[p * 3 + c]);
            p = p + 1;
        }
        assert(c * pixels + pixels == (c + 1) * pixels) by (nonlinear_arith);
        c = c + 1;
    }
    proof {
        assert forall|c: int, p: int| 0 <= c < 3 && 0 <= p < pixels implies #[trigger] out@[c * pixels + p] == raw@[3 * p
            + c] by {
            lemma_planar_entry(raw@, pixels as int, c, p);
        }
    }
    out
}

/// Channel `c` of pixel `p` lands at position `c * n + p` of the planes.
pub proof fn lemma_planar_entry(raw: Seq<u8>, n: int, c: int, p: int)
    requires
        0 <= c < 3,
        0 <= p < n,
    ensures
        c * n + p < planar_spec(raw, n).len(),
        planar_spec(raw, n)[c * n + p] == raw[3 * p + c],
{
    vstd::arithmetic::div_mod::lemma_fundamental_div_mod_converse(c * n + p, n, c, p);
    assert(c * n + p < 3 * n) by (nonlinear_arith)
        requires
            0 <= c < 3,
            0 <= p < n,
    ;
}

} // verus!
