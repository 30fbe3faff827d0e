use vstd::prelude::*;
use vstd::utf8::encode_utf8;

use crate::cli::{config_error, EncodeOpts, StegMethod};
use crate::image::CoverImage;
use crate::steganography::{
    capacity_of, decoded, dist_or_default, encodes, encoder_from_opts, fits, stream_bits, BitEncoder,
    BitEncoding, BitMethod,
};
use crate::compress::{compress, compressed, decompress, decompressed};
use crate::crypto::{container_len, decrypt, decrypted, encrypt};
use crate::StegError;

verus! {

/// The standard base64 encoding (with padding) of `data`, as ASCII bytes.
pub uninterp spec fn base64_of(data: Seq<u8>) -> Seq<u8>;

/// The bytes that the standard base64 text `text` decodes to, or `None` when it is not
/// valid base64.
pub uninterp spec fn base64_decoded(text: Seq<u8>) -> Option<Seq<u8>>;

/// Relies on base64's `encode` (standard alphabet, padded): the text depends on the bytes
/// alone, has four characters for every three bytes or part of them, and base64's
/// `decode` turns it back into them.
#[verifier::external_body]
pub(crate) fn base64_encode(data: &[u8]) -> (r: Vec<u8>)
    ensures
        r@ == base64_of(data@),
        r@.len() == 4 * ((data@.len() + 2) / 3),
        base64_decoded(r@) == Some(data@),
{
    base64::encode(data).into_bytes()
}

/// Relies on base64's `decode` (standard alphabet): the result depends on the text alone.
#[verifier::external_body]
pub(crate) fn base64_decode(text: &[u8]) -> (r: Option<Vec<u8>>)
    ensures
        (match r {
            Some(v) => Some(v@),
            None => None,
        }) == base64_decoded(text@),
{
    base64::decode(text).ok()
}

/// What hiding makes of `msg` when no key is given: compressed if asked, then base64 text
/// if asked.
pub open spec fn packed_plain(msg: Seq<u8>, o: EncodeOpts) -> Option<Seq<u8>> {
    let c = if o.compress {
        compressed(msg)
    } else {
        Some(msg)
    };
    match c {
        None => None,
        Some(c) => if o.base64 {
            Some(base64_of(c))
        } else {
            Some(c)
        },
    }
}

/// The message after the compression step: compressed if asked.
pub open spec fn compressed_step(msg: Seq<u8>, o: EncodeOpts) -> Option<Seq<u8>> {
    if o.compress {
        compressed(msg)
    } else {
        Some(msg)
    }
}

/// Length of the payload that hiding makes of `msg`, key or not; `None` when the
/// compression step fails.
pub open spec fn packed_len(msg: Seq<u8>, o: EncodeOpts) -> Option<nat> {
    match compressed_step(msg, o) {
        None => None,
        Some(c) => {
            let e = if o.key is Some {
                container_len(c.len())
            } else {
                c.len()
            };
            Some(
                if o.base64 {
                    4 * ((e + 2) / 3)
                } else {
                    e
                },
            )
        },
    }
}

/// What revealing makes of `data`: base64-decoded if asked, then decrypted if a key is
/// given, then decompressed if asked; `None` when a step fails.
pub open spec fn revealed(data: Seq<u8>, o: EncodeOpts) -> Option<Seq<u8>> {
    let a = if o.base64 {
        base64_decoded(data)
    } else {
        Some(data)
    };
    match a {
        None => None,
        Some(a) => {
            let b = match o.key {
                Some(k) => match decrypted(a, encode_utf8(k@)) {
                    Ok(p) => Some(p),
                    Err(_) => None,
                },
                None => Some(a),
            };
            match b {
                None => None,
                Some(b) => if o.compress {
                    decompressed(b)
                } else {
                    Some(b)
                },
            }
        },
    }
}

/// Turns a message into the payload to hide: compressed, then encrypted, then base64
/// text, each step only if the options ask for it. What it returns reveals to the message.
pub fn hide_payload(message: &[u8], opts: &EncodeOpts) -> (r: Result<Vec<u8>, StegError>)
    ensures
        r matches Ok(p) ==> revealed(p@, *opts) == Some(message@),
        opts.key is None ==> (match r {
            Ok(p) => Some(p@),
            Err(_) => None,
        }) == packed_plain(message@, *opts),
        r is Err <==> packed_len(message@, *opts) is None,
        r matches Ok(p) ==> packed_len(message@, *opts) == Some(p@.len()),
        r matches Err(e) ==> e == StegError::Compression(
            if message@.len() == 0 {
                crate::CompressionError::EmptyData
            } else {
                crate::CompressionError::Compression
            },
        ),
{
    let mut data: Vec<u8> = crate::steganography::copy_bytes(message);
    if opts.compress {
        data = match compress(data.as_slice()) {
            Ok(c) => c,
            Err(e) => {
                return Err(StegError::Compression(e));
            },
        };
    }
    let ghost after_compress = data@;
    match &opts.key {
        Some(k) => {
            data = match encrypt(data.as_slice(), k.as_str().as_bytes()) {
                Ok(c) => c,
                Err(e) => {
                    return Err(StegError::Crypto(e));
                },
            };
            assert(data@.len() == container_len(after_compress.len()));
        },
        None => {},
    }
    let ghost after_encrypt = data@;
    if opts.base64 {
        data = base64_encode(data.as_slice());
    }
    proof {
        if opts.key is Some {
            assert(decrypted(after_encrypt, encode_utf8(opts.key->0@)) == Ok::<Seq<u8>, crate::CryptoError>(after_compress));
        }
    }
    Ok(data)
}

/// Turns a hidden payload back into the message: base64-decoded, then decrypted, then
/// decompressed, each step only if the options ask for it.
pub fn reveal_payload(data: &[u8], opts: &EncodeOpts) -> (r: Result<Vec<u8>, StegError>)
    ensures
        (match r {
            Ok(p) => Some(p@),
            Err(_) => None,
        }) == revealed(data@, *opts),
{
    let mut cur: Vec<u8> = crate::steganography::copy_bytes(data);
    if opts.base64 {
        cur = match base64_decode(cur.as_slice()) {
            Some(v) => v,
            None => {
                return Err(StegError::InvalidBase64);
            },
        };
    }
    match &opts.key {
        Some(k) => {
            cur = match decrypt(cur.as_slice(), k.as_str().as_bytes()) {
                Ok(p) => p,
                Err(e) => {
                    return Err(StegError::Crypto(e));
                },
            };
        },
        None => {},
    }
    if opts.compress {
        cur = match decompress(cur.as_slice()) {
            Ok(p) => p,
            Err(e) => {
                return Err(StegError::Compression(e));
            },
        };
    }
    Ok(cur)
}

/// `e` is a codec as `encoder_from_opts` builds it from valid options `o`: fresh, with the strategy,
/// seed and highest bit that `o` names.
pub open spec fn fresh_codec(e: BitEncoder<BitMethod>, o: EncodeOpts) -> bool {
    &&& config_error(o) is None
    &&& e.encoder.wf()
    &&& e.end_sequence
    &&& e.bit_dist == dist_or_default(o.distribution)
    &&& if o.method == Some(StegMethod::RandomSignificantBit) {
        e.encoder matches BitMethod::Rsb(g) && g.max_bit() == o.max_bit->0 && g.seed_text()
            == o.seed->0@ && g.draws() == 0
    } else {
        e.encoder is Lsb
    }
}

/// Two fresh codecs for the same options draw the same masks.
pub proof fn lemma_fresh_codecs_agree(a: BitEncoder<BitMethod>, b: BitEncoder<BitMethod>, o: EncodeOpts)
    requires
        fresh_codec(a, o),
        fresh_codec(b, o),
    ensures
        a.bit_dist == b.bit_dist,
        forall|k: nat| #[trigger] a.encoder.mask_at(k) == b.encoder.mask_at(k),
{
    if o.method == Some(StegMethod::RandomSignificantBit) {
        if let BitMethod::Rsb(ga) = a.encoder {
            if let BitMethod::Rsb(gb) = b.encoder {
                crate::steganography::lemma_seed_determinism(ga, gb);
            }
        }
    }
}

/// Encodes an already built payload into a copy of `cover` with a fresh codec for the
/// options.
pub fn embed_payload(cover: &CoverImage, payload: &[u8], opts: &EncodeOpts) -> (r: Result<CoverImage, StegError>)
    requires
        cover.wf(),
    ensures
        config_error(*opts) matches Some(c) ==> r == Err::<CoverImage, StegError>(StegError::InvalidConfiguration(c)),
        config_error(*opts) is None ==> (r is Ok <==> fits(cover.pixel_count(), payload@.len(), true)),
        config_error(*opts) is None && !fits(cover.pixel_count(), payload@.len(), true) ==> r
            == Err::<CoverImage, StegError>(StegError::MessageTooLong {
            length: payload@.len() as usize,
            capacity: capacity_of(cover.pixel_count(), true) as usize,
        }),
        r matches Ok(img) ==> {
            &&& img.wf()
            &&& img.width == cover.width
            &&& img.height == cover.height
            &&& forall|e: BitEncoder<BitMethod>|
                fresh_codec(e, *opts) ==> encodes(e.encoder, *cover, e.bit_dist, stream_bits(payload@, true), img)
        },
{
    let mut codec = match encoder_from_opts(opts) {
        Ok(c) => c,
        Err(e) => {
            return Err(e);
        },
    };
    let ghost c0 = codec;
    let r = codec.encode(cover, payload);
    proof {
        if r is Ok {
            let img = r->Ok_0;
            assert forall|e: BitEncoder<BitMethod>|
                fresh_codec(e, *opts) implies encodes(e.encoder, *cover, e.bit_dist, stream_bits(payload@, true), img) by {
                lemma_fresh_codecs_agree(e, c0, *opts);
            }
        }
    }
    r
}

/// Hides `message` in a copy of `cover` as the options describe: options checked, payload
/// built (compressed, encrypted, base64), then encoded with a fresh codec.
pub fn hide_message(cover: &CoverImage, message: &[u8], opts: &EncodeOpts) -> (r: Result<CoverImage, StegError>)
    requires
        cover.wf(),
    ensures
        config_error(*opts) matches Some(c) ==> r == Err::<CoverImage, StegError>(StegError::InvalidConfiguration(c)),
        config_error(*opts) is None ==> (r is Ok <==> (packed_len(message@, *opts) matches Some(l) && fits(
            cover.pixel_count(),
            l,
            true,
        ))),
        config_error(*opts) is None ==> (packed_len(message@, *opts) matches Some(l) ==> (!fits(
            cover.pixel_count(),
            l,
            true,
        ) ==> r == Err::<CoverImage, StegError>(StegError::MessageTooLong {
            length: l as usize,
            capacity: capacity_of(cover.pixel_count(), true) as usize,
        }))),
        config_error(*opts) is None && opts.key is None && r is Ok ==> packed_plain(message@, *opts) is Some,
        r matches Ok(img) ==> img.width == cover.width && img.height == cover.height,
        r matches Ok(img) ==> img.wf() && exists|p: Seq<u8>|
            #[trigger] revealed(p, *opts) == Some(message@) && fits(cover.pixel_count(), p.len(), true) && (forall|e: BitEncoder<BitMethod>|
                fresh_codec(e, *opts) ==> encodes(e.encoder, *cover, e.bit_dist, stream_bits(p, true), img)),
{
    match opts.validate() {
        Err(e) => {
            return Err(e);
        },
        Ok(()) => {},
    }
    let payload = match hide_payload(message, opts) {
        Ok(p) => p,
        Err(e) => {
            return Err(e);
        },
    };
    let r = embed_payload(cover, payload.as_slice(), opts);
    proof {
        if r is Ok {
            assert(revealed(payload@, *opts) == Some(message@));
        }
    }
    r
}

/// Recovers a message hidden by `hide_message` with the same options.
pub fn reveal_message(img: &CoverImage, opts: &EncodeOpts) -> (r: Result<Vec<u8>, StegError>)
    requires
        img.wf(),
    ensures
        config_error(*opts) matches Some(c) ==> r == Err::<Vec<u8>, StegError>(StegError::InvalidConfiguration(c)),
        config_error(*opts) is None ==> exists|e: BitEncoder<BitMethod>| fresh_codec(e, *opts),
        forall|e: BitEncoder<BitMethod>|
            fresh_codec(e, *opts) ==> (match r {
                Ok(m) => Some(m@),
                Err(_) => None,
            }) == (match decoded(e.encoder, *img, e.bit_dist, true) {
                Some(p) => revealed(p, *opts),
                None => None,
            }),
{
    let mut codec = match encoder_from_opts(opts) {
        Ok(c) => c,
        Err(e) => {
            return Err(e);
        },
    };
    let ghost c0 = codec;
    assert(fresh_codec(c0, *opts));
    let r = match codec.decode(img) {
        Ok(p) => reveal_payload(p.as_slice(), opts),
        Err(e) => Err(e),
    };
    proof {
        assert forall|e: BitEncoder<BitMethod>| fresh_codec(e, *opts) implies decoded(e.encoder, *img, e.bit_dist, true)
            == decoded(c0.encoder, *img, c0.bit_dist, true) by {
            lemma_fresh_codecs_agree(e, c0, *opts);
            assert(crate::steganography::read_bits(e.encoder, *img, e.bit_dist) =~= crate::steganography::read_bits(c0.encoder, *img, c0.bit_dist));
        }
    }
    r
}

/// Message round trip: an image that `hide_message` made with sequential distribution,
/// from a payload `p` whose stream holds the terminator only at its end, decodes with a
/// fresh codec for the same options to `p`, which reveals to the message.
pub proof fn lemma_message_round_trip(
    cover: CoverImage,
    message: Seq<u8>,
    opts: EncodeOpts,
    p: Seq<u8>,
    img: CoverImage,
    e: BitEncoder<BitMethod>,
)
    requires
        cover.wf(),
        fresh_codec(e, opts),
        dist_or_default(opts.distribution) == crate::cli::BitDistribution::Sequential,
        revealed(p, opts) == Some(message),
        fits(cover.pixel_count(), p.len(), true),
        crate::steganography::no_early_end(p),
        encodes(e.encoder, cover, e.bit_dist, stream_bits(p, true), img),
    ensures
        (match decoded(e.encoder, img, e.bit_dist, true) {
            Some(q) => revealed(q, opts),
            None => None,
        }) == Some(message),
{
    crate::steganography::lemma_round_trip(
        e.encoder,
        e.encoder,
        e.bit_dist,
        e.bit_dist,
        cover,
        p,
        img,
    );
}

} // verus!
