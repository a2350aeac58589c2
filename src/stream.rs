//! The mathematical model of matching a stream of text chunks against an
//! expected byte sequence, and the laws that the model obeys.
use vstd::prelude::*;
use vstd::utf8::{encode_utf8, encode_utf8_decode_utf8};

verus! {

/// The bytes of all chunks, joined in order.
pub open spec fn concat(chunks: Seq<Seq<u8>>) -> Seq<u8>
    decreases chunks.len(),
{
    if chunks.len() == 0 {
        Seq::empty()
    } else {
        concat(chunks.drop_last()) + chunks.last()
    }
}

/// One chunk arrives while the first `matched` bytes of `expected` are
/// already matched: it is accepted, and the cursor moves past it, exactly
/// when it is a prefix of what is still unmatched.
pub open spec fn step(expected: Seq<u8>, matched: nat, chunk: Seq<u8>) -> Option<nat> {
    if matched <= expected.len() && chunk.is_prefix_of(expected.skip(matched as int)) {
        Some(matched + chunk.len())
    } else {
        None
    }
}

/// The cursor after the chunks arrive one by one from the start of
/// `expected`, or `None` once one of them is rejected.
pub open spec fn feed_all(expected: Seq<u8>, chunks: Seq<Seq<u8>>) -> Option<nat>
    decreases chunks.len(),
{
    if chunks.len() == 0 {
        Some(0)
    } else {
        match feed_all(expected, chunks.drop_last()) {
            Some(m) => step(expected, m, chunks.last()),
            None => None,
        }
    }
}

/// The cursor after the chunks arrive one by one from `matched`, where a
/// rejected chunk leaves the cursor where it was and later chunks are still
/// offered.
pub open spec fn run(expected: Seq<u8>, matched: nat, chunks: Seq<Seq<u8>>) -> nat
    decreases chunks.len(),
{
    if chunks.len() == 0 {
        matched
    } else {
        let m = run(expected, matched, chunks.drop_last());
        match step(expected, m, chunks.last()) {
            Some(n) => n,
            None => m,
        }
    }
}

/// The outcome of a formatting that wrote `chunks` in order and reported
/// success as `ok`: it matches when it succeeded and the chunks took the
/// cursor to the end of `expected`.
pub open spec fn formatted_match(expected: Seq<u8>, chunks: Seq<Seq<u8>>, ok: bool) -> bool {
    ok && run(expected, 0, chunks) == expected.len()
}

/// Every chunk was accepted and the whole of `expected` was matched.
pub open spec fn accepts(expected: Seq<u8>, chunks: Seq<Seq<u8>>) -> bool {
    feed_all(expected, chunks) == Some(expected.len())
}

/// While no chunk has been rejected, the chunks joined so far are exactly
/// the matched prefix of `expected`; once one is rejected, the chunks joined
/// so far are no prefix of `expected`.
pub proof fn lemma_feed_all_tracks_concat(expected: Seq<u8>, chunks: Seq<Seq<u8>>)
    ensures
        match feed_all(expected, chunks) {
            Some(m) => m == concat(chunks).len() && concat(chunks).is_prefix_of(expected),
            None => !concat(chunks).is_prefix_of(expected),
        },
    decreases chunks.len(),
{
    if chunks.len() > 0 {
        let init = chunks.drop_last();
        let last = chunks.last();
        lemma_feed_all_tracks_concat(expected, init);
        let joined = concat(chunks);
        assert(joined == concat(init) + last);
        match feed_all(expected, init) {
            Some(m) => {
                let rest = expected.skip(m as int);
                if last.is_prefix_of(rest) {
                    assert(joined =~= expected.subrange(0, joined.len() as int));
                } else if joined.is_prefix_of(expected) {
                    assert forall|i: int| 0 <= i < last.len() implies last[i] == rest[i] by {
                        assert(joined[m + i] == last[i]);
                        assert(joined[m + i] == expected[m + i]);
                    }
                    assert(last =~= rest.subrange(0, last.len() as int));
                }
            },
            None => {
                if joined.is_prefix_of(expected) {
                    assert(concat(init) =~= expected.subrange(0, concat(init).len() as int));
                }
            },
        }
    }
}

/// The streaming match accepts exactly when the chunks, joined, equal the
/// expected bytes.
pub proof fn lemma_accepts_iff_concat_equal(expected: Seq<u8>, chunks: Seq<Seq<u8>>)
    ensures
        accepts(expected, chunks) <==> concat(chunks) == expected,
{
    lemma_feed_all_tracks_concat(expected, chunks);
    if concat(chunks) == expected {
        assert(concat(chunks).is_prefix_of(expected)) by {
            assert(expected =~= expected.subrange(0, expected.len() as int));
        }
    }
    if accepts(expected, chunks) {
        assert(concat(chunks) =~= expected);
    }
}

/// Where no chunk is rejected, the cursor that `run` reaches from the start
/// is the one `feed_all` gives; so the whole of `expected` is reached exactly
/// when the chunks, joined, equal it.
pub proof fn lemma_run_without_rejection(expected: Seq<u8>, chunks: Seq<Seq<u8>>)
    requires
        feed_all(expected, chunks) is Some,
    ensures
        feed_all(expected, chunks) == Some(run(expected, 0, chunks)),
        (run(expected, 0, chunks) == expected.len()) == (concat(chunks) == expected),
    decreases chunks.len(),
{
    if chunks.len() > 0 {
        lemma_run_without_rejection(expected, chunks.drop_last());
    }
    lemma_accepts_iff_concat_equal(expected, chunks);
}

/// A formatting that passes each rejected write on as its own failure
/// matches exactly when it succeeds and the chunks it wrote, joined, equal
/// `expected`: where the chunk boundaries fall does not matter.
pub proof fn lemma_formatted_match_iff_rendering_equal(
    expected: Seq<u8>,
    chunks: Seq<Seq<u8>>,
    ok: bool,
)
    requires
        feed_all(expected, chunks) is None ==> !ok,
    ensures
        formatted_match(expected, chunks, ok) == (ok && concat(chunks) == expected),
{
    if feed_all(expected, chunks) is Some {
        lemma_run_without_rejection(expected, chunks);
    }
}

/// Writing `x` and then `y` leaves the cursor where writing `x + y` at once
/// does, and is rejected exactly when that is.
pub proof fn lemma_step_append(expected: Seq<u8>, matched: nat, x: Seq<u8>, y: Seq<u8>)
    ensures
        step(expected, matched, x + y) == match step(expected, matched, x) {
            Some(m) => step(expected, m, y),
            None => None,
        },
{
    if matched <= expected.len() {
        let rest = expected.skip(matched as int);
        let xy = x + y;
        if xy.is_prefix_of(rest) {
            assert(x =~= rest.subrange(0, x.len() as int)) by {
                assert forall|i: int| 0 <= i < x.len() implies x[i] == rest[i] by {
                    assert(xy[i] == x[i]);
                }
            }
            let rest2 = expected.skip((matched + x.len()) as int);
            assert(y =~= rest2.subrange(0, y.len() as int)) by {
                assert forall|i: int| 0 <= i < y.len() implies y[i] == rest2[i] by {
                    assert(xy[x.len() + i] == y[i]);
                    assert(rest2[i] == rest[x.len() + i]);
                }
            }
        } else if x.is_prefix_of(rest) {
            let rest2 = expected.skip((matched + x.len()) as int);
            if y.is_prefix_of(rest2) {
                assert(xy =~= rest.subrange(0, xy.len() as int)) by {
                    assert forall|i: int| 0 <= i < xy.len() implies xy[i] == rest[i] by {
                        if i >= x.len() {
                            assert(rest2[i - x.len()] == rest[i]);
                        }
                    }
                }
            }
        }
    }
}

/// A rendering equal to the expected text is accepted.
pub proof fn lemma_exact_match_accepted(expected: Seq<u8>, chunks: Seq<Seq<u8>>)
    requires
        concat(chunks) == expected,
    ensures
        accepts(expected, chunks),
{
    lemma_accepts_iff_concat_equal(expected, chunks);
}

/// An expected text that is a strict prefix of the rendering is rejected.
pub proof fn lemma_too_short_rejected(expected: Seq<u8>, chunks: Seq<Seq<u8>>)
    requires
        expected.is_prefix_of(concat(chunks)),
        expected.len() < concat(chunks).len(),
    ensures
        !accepts(expected, chunks),
{
    lemma_accepts_iff_concat_equal(expected, chunks);
}

/// A rendering that is a strict prefix of the expected text is rejected.
pub proof fn lemma_too_long_rejected(expected: Seq<u8>, chunks: Seq<Seq<u8>>)
    requires
        concat(chunks).is_prefix_of(expected),
        concat(chunks).len() < expected.len(),
    ensures
        !accepts(expected, chunks),
{
    lemma_accepts_iff_concat_equal(expected, chunks);
}

/// A rendering and an expected text of which neither is a prefix of the
/// other are rejected.
pub proof fn lemma_unrelated_rejected(expected: Seq<u8>, chunks: Seq<Seq<u8>>)
    requires
        !expected.is_prefix_of(concat(chunks)),
        !concat(chunks).is_prefix_of(expected),
    ensures
        !accepts(expected, chunks),
{
    lemma_accepts_iff_concat_equal(expected, chunks);
    if concat(chunks) == expected {
        assert(expected =~= concat(chunks).subrange(0, expected.len() as int));
    }
}

/// Two ways of cutting the same rendering into chunks give the same verdict.
pub proof fn lemma_chunking_irrelevant(
    expected: Seq<u8>,
    chunks1: Seq<Seq<u8>>,
    chunks2: Seq<Seq<u8>>,
)
    requires
        concat(chunks1) == concat(chunks2),
    ensures
        accepts(expected, chunks1) == accepts(expected, chunks2),
{
    lemma_accepts_iff_concat_equal(expected, chunks1);
    lemma_accepts_iff_concat_equal(expected, chunks2);
}

/// An empty rendering is accepted exactly when the expected text is empty.
pub proof fn lemma_empty_rendering(expected: Seq<u8>, chunks: Seq<Seq<u8>>)
    requires
        concat(chunks).len() == 0,
    ensures
        accepts(expected, chunks) <==> expected.len() == 0,
{
    lemma_accepts_iff_concat_equal(expected, chunks);
    if expected.len() == 0 {
        assert(concat(chunks) =~= expected);
    }
}

/// The characters of all chunks, joined in order.
pub open spec fn join(chunks: Seq<Seq<char>>) -> Seq<char>
    decreases chunks.len(),
{
    if chunks.len() == 0 {
        Seq::empty()
    } else {
        join(chunks.drop_last()) + chunks.last()
    }
}

/// The UTF-8 encoding of joined text is the encodings of its parts, joined.
pub proof fn lemma_encode_append(a: Seq<char>, b: Seq<char>)
    ensures
        encode_utf8(a + b) == encode_utf8(a) + encode_utf8(b),
    decreases a.len(),
{
    if a.len() > 0 {
        lemma_encode_append(a.drop_first(), b);
        assert((a + b).drop_first() =~= a.drop_first() + b);
        assert((a + b)[0] == a[0]);
    } else {
        assert(a + b =~= b);
    }
}

/// Encoding the joined chunks is joining the chunks' encodings.
pub proof fn lemma_encode_join(chunks: Seq<Seq<char>>)
    ensures
        encode_utf8(join(chunks)) == concat(chunks.map_values(|c: Seq<char>| encode_utf8(c))),
    decreases chunks.len(),
{
    let encoded = chunks.map_values(|c: Seq<char>| encode_utf8(c));
    if chunks.len() > 0 {
        let init = chunks.drop_last();
        lemma_encode_join(init);
        lemma_encode_append(join(init), chunks.last());
        assert(encoded.drop_last() =~= init.map_values(|c: Seq<char>| encode_utf8(c)));
    } else {
        assert(encode_utf8(join(chunks)) =~= concat(encoded));
    }
}

/// Two texts are equal exactly when their UTF-8 encodings are.
pub proof fn lemma_encode_equal_iff_text_equal(a: Seq<char>, b: Seq<char>)
    ensures
        encode_utf8(a) == encode_utf8(b) <==> a == b,
{
    encode_utf8_decode_utf8(a);
    encode_utf8_decode_utf8(b);
}

} // verus!
