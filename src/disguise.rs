use vstd::prelude::*;
use vstd::utf8::valid_utf8;

use crate::cli::{config_error, EncodeOpts};
use crate::image::CoverImage;
use crate::payload::{
    base64_decode, base64_decoded, base64_encode, base64_of, embed_payload, fresh_codec, packed_len,
    revealed,
};
use crate::steganography::{encodes, stream_bits, BitEncoder, BitMethod};
use crate::steganography::fits;
use crate::StegError;

verus! {

/// The suffix of every disguised file name: ".png".
pub open spec fn png_suffix() -> Seq<u8> {
    seq![0x2eu8, 0x70u8, 0x6eu8, 0x67u8]
}

/// A file name is visible: it does not start with '.'.
pub open spec fn visible(name: Seq<u8>) -> bool {
    !(name.len() > 0 && name[0] == 0x2e)
}

/// The original name recovered from a disguised file's stem: its base64 decoding, if that
/// is valid UTF-8 text.
pub open spec fn recovered_name(stem: Seq<u8>) -> Option<Seq<u8>> {
    match base64_decoded(stem) {
        Some(n) => if valid_utf8(n) {
            Some(n)
        } else {
            None
        },
        None => None,
    }
}

/// Relies on std's `str::from_utf8`, which accepts exactly the valid UTF-8 byte sequences.
#[verifier::external_body]
fn is_utf8(bytes: &[u8]) -> (r: bool)
    ensures
        r == valid_utf8(bytes@),
{
    std::str::from_utf8(bytes).is_ok()
}

/// Whether a directory entry named `name` takes part in a batch: hidden files (name
/// starting with '.') are skipped.
pub fn is_not_hidden(name: &[u8]) -> (r: bool)
    ensures
        r == visible(name@),
{
    !(name.len() > 0 && name[0] == 0x2e)
}

/// The name of the disguised file for a file named `original`: its base64 text with the
/// extension ".png". The stem gives the name back.
pub fn disguised_name(original: &[u8]) -> (r: Vec<u8>)
    ensures
        r@ == base64_of(original@) + png_suffix(),
        valid_utf8(original@) ==> recovered_name(base64_of(original@)) == Some(original@),
{
    let mut r = base64_encode(original);
    let mut ext: Vec<u8> = vec![0x2eu8, 0x70u8, 0x6eu8, 0x67u8];
    assert(ext@ =~= png_suffix());
    r.append(&mut ext);
    r
}

/// The original name of a disguised file with stem `stem`, or `None` (the file is then
/// skipped) when the stem is not base64 of UTF-8 text.
pub fn original_name(stem: &[u8]) -> (r: Option<Vec<u8>>)
    ensures
        (match r {
            Some(v) => Some(v@),
            None => None,
        }) == recovered_name(stem@),
{
    match base64_decode(stem) {
        Some(n) => if is_utf8(n.as_slice()) {
            Some(n)
        } else {
            None
        },
        None => None,
    }
}

/// The cover images of a batch, tried in turn from a cursor that goes round.
pub struct CoverPool {
    pub covers: Vec<CoverImage>,
    /// Index of the next cover to try.
    pub cursor: usize,
}

/// Index `t` places after `start` in a ring of `n`.
pub open spec fn ring(start: nat, t: nat, n: nat) -> nat {
    (start + t) % n
}

proof fn lemma_ring(start: nat, t: nat, n: nat)
    requires
        start < n,
        t < n,
    ensures
        start + t < n ==> ring(start, t, n) == start + t,
        start + t >= n ==> ring(start, t, n) == start + t - n,
{
    if start + t < n {
        vstd::arithmetic::div_mod::lemma_small_mod(start + t, n);
    } else {
        let b = (start + t - n) as nat;
        vstd::arithmetic::div_mod::lemma_small_mod(b, n);
        vstd::arithmetic::div_mod::lemma_mod_add_multiples_vanish(b as int, n as int);
    }
}

/// Some cover among `covers` can hold a payload of `needed` bytes.
pub open spec fn some_cover_holds(covers: Seq<CoverImage>, needed: nat) -> bool {
    exists|i: int| 0 <= i < covers.len() && fits(#[trigger] covers[i].pixel_count(), needed, true)
}

/// What hiding a file with `contents` in a pool of `covers` may give:
/// - the options' first problem, when they are unusable;
/// - success exactly when the payload can be built and some cover holds it, and
///   `NoCoverFits` with the payload's length when none does;
/// - on success, the index of the cover used and an image of its size that carries a
///   payload revealing to the contents.
pub open spec fn hide_outcome(
    covers: Seq<CoverImage>,
    contents: Seq<u8>,
    o: EncodeOpts,
    r: Result<(usize, CoverImage), StegError>,
) -> bool {
    &&& (config_error(o) matches Some(c) ==> r == Err::<(usize, CoverImage), StegError>(
        StegError::InvalidConfiguration(c),
    ))
    &&& (config_error(o) is None ==> (r is Ok <==> (packed_len(contents, o) matches Some(l)
        && some_cover_holds(covers, l))))
    &&& (config_error(o) is None ==> (packed_len(contents, o) matches Some(l) ==> (!some_cover_holds(covers, l)
        ==> r == Err::<(usize, CoverImage), StegError>(StegError::NoCoverFits { length: l as usize }))))
    &&& match r {
        Ok((i, img)) => {
            &&& i < covers.len()
            &&& img.wf()
            &&& img.width == covers[i as int].width
            &&& img.height == covers[i as int].height
            &&& exists|p: Seq<u8>|
                #[trigger] revealed(p, o) == Some(contents) && (forall|e: BitEncoder<BitMethod>|
                    fresh_codec(e, o) ==> encodes(e.encoder, covers[i as int], e.bit_dist, stream_bits(p, true), img))
        },
        Err(_) => true,
    }
}

impl CoverPool {
    pub open spec fn wf(&self) -> bool {
        &&& forall|i: int| 0 <= i < self.covers@.len() ==> #[trigger] self.covers@[i].wf()
        &&& (self.covers@.len() == 0 || self.cursor < self.covers@.len())
    }

    /// Cover `i` can hold a payload of `needed` bytes.
    pub open spec fn holds(&self, i: int, needed: nat) -> bool {
        fits(self.covers@[i].pixel_count(), needed, true)
    }

    /// Some cover can hold a payload of `needed` bytes.
    pub open spec fn any_holds(&self, needed: nat) -> bool {
        some_cover_holds(self.covers@, needed)
    }

    /// A pool over `covers`, starting with the first.
    pub fn new(covers: Vec<CoverImage>) -> (r: CoverPool)
        requires
            forall|i: int| 0 <= i < covers@.len() ==> #[trigger] covers@[i].wf(),
        ensures
            r.wf(),
            r.covers == covers,
            r.cursor == 0,
    {
        CoverPool { covers, cursor: 0 }
    }

    /// Picks the first cover, from the cursor on and round once, that can hold `needed`
    /// bytes; the cursor then moves past it. With none, the cursor is back where it
    /// started.
    pub fn select_cover(&mut self, needed: usize) -> (r: Option<usize>)
        requires
            old(self).wf(),
        ensures
            final(self).wf(),
            final(self).covers == old(self).covers,
            r is None <==> !old(self).any_holds(needed as nat),
            r is None ==> final(self).cursor == old(self).cursor,
            r matches Some(i) ==> {
                let n = old(self).covers@.len();
                &&& i < n
                &&& old(self).holds(i as int, needed as nat)
                &&& final(self).cursor == (i + 1) % n as int
                &&& exists|t: nat|
                    t < n && i == ring(old(self).cursor as nat, t, n) && forall|t2: nat|
                        t2 < t ==> !old(self).holds(#[trigger] ring(old(self).cursor as nat, t2, n) as int, needed as nat)
            },
    {
        let n = self.covers.len();
        if n == 0 {
            return None;
        }
        let start = self.cursor;
        let mut t: usize = 0;
        while t < n
            invariant
                n == self.covers@.len(),
                start == self.cursor,
                start < n,
                self.wf(),
                *self == *old(self),
                t <= n,
                forall|t2: nat| t2 < t ==> !self.holds(#[trigger] ring(start as nat, t2, n as nat) as int, needed as nat),
            decreases n - t,
        {
            let i: usize = if t < n - start { start + t } else { t - (n - start) };
            proof {
                lemma_ring(start as nat, t as nat, n as nat);
                assert(self.covers@[i as int].wf());
            }
            let c = &self.covers[i];
            if c.data.len() >= 32 && needed <= (c.data.len() - 32) / 8 {
                assert(old(self).holds(i as int, needed as nat));
                assert(old(self).any_holds(needed as nat));
                assert(i == ring(start as nat, t as nat, n as nat));
                self.cursor = if i + 1 < n { i + 1 } else { 0 };
                proof {
                    if i + 1 < n {
                        vstd::arithmetic::div_mod::lemma_small_mod((i + 1) as nat, n as nat);
                    } else {
                        vstd::arithmetic::div_mod::lemma_mod_self_0(n as int);
                    }
                    let tt: nat = t as nat;
                    assert(forall|t2: nat|
                        t2 < tt ==> !old(self).holds(#[trigger] ring(old(self).cursor as nat, t2, n as nat) as int, needed as nat));
                    assert(tt < n && i == ring(old(self).cursor as nat, tt, n as nat));
                }
                return Some(i);
            }
            t = t + 1;
        }
        assert forall|i: int| 0 <= i < n implies !fits(#[trigger] self.covers@[i].pixel_count(), needed as nat, true) by {
            let t2: nat = if i >= start { (i - start) as nat } else { (i + n - start) as nat };
            lemma_ring(start as nat, t2, n as nat);
            assert(ring(start as nat, t2, n as nat) == i);
            assert(self.covers@[i].wf());
        }
        None
    }
}

/// Hides one file's `contents` in the first cover of the pool that can hold its payload;
/// the image returned carries a payload that reveals to the contents. Without a key the
/// payload is fixed, and the file is hidden exactly when the options are valid, the
/// payload can be built, and some cover holds it.
pub fn hide_file(pool: &mut CoverPool, contents: &[u8], opts: &EncodeOpts) -> (r: Result<(usize, CoverImage), StegError>)
    requires
        old(pool).wf(),
    ensures
        final(pool).wf(),
        final(pool).covers == old(pool).covers,
        hide_outcome(old(pool).covers@, contents@, *opts, r),
{
    match opts.validate() {
        Err(e) => {
            return Err(e);
        },
        Ok(()) => {},
    }
    let payload = match crate::payload::hide_payload(contents, opts) {
        Ok(p) => p,
        Err(e) => {
            return Err(e);
        },
    };
    match pool.select_cover(payload.len()) {
        None => Err(StegError::NoCoverFits { length: payload.len() }),
        Some(i) => {
            proof {
                assert(pool.covers@[i as int].wf());
            }
            let r = embed_payload(&pool.covers[i], payload.as_slice(), opts);
            proof {
                assert(revealed(payload@, *opts) == Some(contents@));
            }
            match r {
                Ok(img) => Ok((i, img)),
                Err(e) => Err(e),
            }
        },
    }
}

/// Hides each file of a batch in turn, sharing the pool's cursor. A file that fails
/// (no cover holds it, or its payload cannot be built) is reported and does not stop the
/// others: each file's outcome depends on that file and the covers alone.
pub fn hide_files(pool: &mut CoverPool, files: &Vec<Vec<u8>>, opts: &EncodeOpts) -> (r: Vec<Result<(usize, CoverImage), StegError>>)
    requires
        old(pool).wf(),
    ensures
        final(pool).wf(),
        final(pool).covers == old(pool).covers,
        r@.len() == files@.len(),
        forall|k: int| 0 <= k < r@.len() ==> hide_outcome(old(pool).covers@, files@[k]@, *opts, #[trigger] r@[k]),
{
    let mut r: Vec<Result<(usize, CoverImage), StegError>> = Vec::new();
    let mut k: usize = 0;
    while k < files.len()
        invariant
            pool.wf(),
            pool.covers == old(pool).covers,
            k <= files@.len(),
            r@.len() == k,
            forall|j: int| 0 <= j < k ==> hide_outcome(old(pool).covers@, files@[j]@, *opts, #[trigger] r@[j]),
        decreases files@.len() - k,
    {
        let one = hide_file(pool, files[k].as_slice(), opts);
        r.push(one);
        k = k + 1;
    }
    r
}

} // verus!
