//! A write sink that matches the text written to it against an expected
//! string, and the comparisons built on it.
use core::fmt::Write;
use vstd::prelude::*;
use vstd::string::StringSliceAdditionalSpecFns;
use vstd::utf8::encode_utf8;

use crate::stream::{
    accepts, concat, feed_all, formatted_match, join, run, lemma_accepts_iff_concat_equal, lemma_encode_equal_iff_text_equal,
    lemma_encode_join, step,
};

verus! {

#[verifier::external_type_specification]
pub struct ExFmtError(core::fmt::Error);

/// Holds the expected string, how many of its bytes the chunks written so
/// far have matched, and (as ghost state) every chunk offered so far.
pub struct Comparator<'a> {
    to_compare: &'a str,
    pos: usize,
    log: Ghost<Seq<Seq<u8>>>,
}

impl<'a> Comparator<'a> {
    #[verifier::type_invariant]
    spec fn inv(self) -> bool {
        &&& self.pos <= self.to_compare.spec_bytes().len()
        &&& self.pos == run(self.to_compare.spec_bytes(), 0, self.log@)
    }

    /// The UTF-8 bytes of the expected string.
    pub closed spec fn expected(self) -> Seq<u8> {
        self.to_compare.spec_bytes()
    }

    /// How many bytes at the start of `expected()` are matched.
    pub closed spec fn matched(self) -> nat {
        self.pos as nat
    }

    /// The bytes of every chunk offered to `write_str`, in order, whether it
    /// was accepted or not.
    pub closed spec fn written(self) -> Seq<Seq<u8>> {
        self.log@
    }

    /// A comparator that has matched nothing of `s` yet.
    pub fn new(s: &'a str) -> (r: Self)
        ensures
            r.expected() == s.spec_bytes(),
            r.matched() == 0,
            r.matched() <= r.expected().len(),
            r.written() == Seq::<Seq<u8>>::empty(),
    {
        Comparator { to_compare: s, pos: 0, log: Ghost(Seq::empty()) }
    }

    /// True when the whole expected string has been matched.
    pub fn is_valid(&self) -> (r: bool)
        ensures
            r == (self.matched() == self.expected().len()),
            self.matched() == run(self.expected(), 0, self.written()),
    {
        proof {
            use_type_invariant(self);
        }
        self.pos == self.to_compare.as_bytes().len()
    }

    /// Accepts `s` when it is a prefix of the unmatched rest of the expected
    /// string, and moves past it; rejects it, and leaves the cursor in place,
    /// otherwise. Either way `s` joins the log of chunks offered.
    pub fn write_str(&mut self, s: &str) -> (r: Result<(), core::fmt::Error>)
        ensures
            final(self).expected() == old(self).expected(),
            r is Ok <==> step(old(self).expected(), old(self).matched(), s.spec_bytes()) is Some,
            r is Ok ==> step(old(self).expected(), old(self).matched(), s.spec_bytes()) == Some(
                final(self).matched(),
            ),
            r is Err ==> final(self).matched() == old(self).matched(),
            final(self).matched() <= final(self).expected().len(),
            final(self).written() == old(self).written().push(s.spec_bytes()),
            final(self).matched() == run(final(self).expected(), 0, final(self).written()),
    {
        proof {
            use_type_invariant(&*self);
        }
        let expected = self.to_compare.as_bytes();
        let start = self.pos;
        let chunk = s.as_bytes();
        let accepted = is_prefix_at(chunk, expected, start);
        let pos = if accepted { start + chunk.len() } else { start };
        let ghost log = self.log@.push(s.spec_bytes());
        assert(log.drop_last() =~= old(self).log@);
        *self = Comparator { to_compare: self.to_compare, pos, log: Ghost(log) };
        if accepted {
            Ok(())
        } else {
            Err(core::fmt::Error)
        }
    }
}

/// True when `chunk` is a prefix of what follows the first `start` bytes of
/// `expected`.
fn is_prefix_at(chunk: &[u8], expected: &[u8], start: usize) -> (r: bool)
    requires
        start <= expected@.len(),
    ensures
        r == chunk@.is_prefix_of(expected@.skip(start as int)),
        r ==> start + chunk.len() <= expected.len(),
{
    let n = chunk.len();
    if n > expected.len() - start {
        return false;
    }
    let ghost rest = expected@.skip(start as int);
    let mut i: usize = 0;
    while i < n
        invariant
            i <= n,
            n == chunk@.len(),
            start + n <= expected.len(),
            rest == expected@.skip(start as int),
            forall|j: int| 0 <= j < i ==> chunk@[j] == rest[j],
        decreases n - i,
    {
        if chunk[i] != expected[start + i] {
            assert(chunk@[i as int] != rest[i as int]);
            return false;
        }
        i = i + 1;
    }
    assert(chunk@ =~= rest.subrange(0, n as int));
    true
}

impl<'a> Write for Comparator<'a> {
    fn write_str(&mut self, s: &str) -> core::fmt::Result {
        Comparator::write_str(self, s)
    }
}

/// Writes the chunks to a fresh comparator for `s` in order, stopping at the
/// first one it rejects, and reports whether all were accepted and all of
/// `s` was matched.
pub fn eq_chunks(chunks: &[&str], s: &str) -> (r: bool)
    ensures
        r == accepts(s.spec_bytes(), chunks@.map_values(|c: &str| c.spec_bytes())),
        r == (concat(chunks@.map_values(|c: &str| c.spec_bytes())) == s.spec_bytes()),
        r == (join(chunks@.map_values(|c: &str| c@)) == s@),
{
    let ghost all = chunks@.map_values(|c: &str| c.spec_bytes());
    let ghost texts = chunks@.map_values(|c: &str| c@);
    proof {
        lemma_encode_join(texts);
        assert(all =~= texts.map_values(|c: Seq<char>| encode_utf8(c)));
        lemma_encode_equal_iff_text_equal(join(texts), s@);
    }
    let mut cmp = Comparator::new(s);
    let mut i: usize = 0;
    while i < chunks.len()
        invariant
            i <= chunks@.len(),
            all == chunks@.map_values(|c: &str| c.spec_bytes()),
            (join(texts) == s@) == (concat(all) == s.spec_bytes()),
            texts == chunks@.map_values(|c: &str| c@),
            cmp.expected() == s.spec_bytes(),
            feed_all(s.spec_bytes(), all.take(i as int)) == Some(cmp.matched()),
        decreases chunks@.len() - i,
    {
        assert(all.take(i + 1).drop_last() =~= all.take(i as int));
        if cmp.write_str(chunks[i]).is_err() {
            assert(feed_all(s.spec_bytes(), all.take(i + 1)) is None);
            assert forall|k: int| i + 1 <= k <= all.len() implies feed_all(
                s.spec_bytes(),
                all.take(k),
            ) is None by {
                lemma_rejection_is_final(s.spec_bytes(), all, i + 1, k);
            }
            assert(all.take(all.len() as int) =~= all);
            proof {
                lemma_accepts_iff_concat_equal(s.spec_bytes(), all);
            }
            return false;
        }
        i = i + 1;
    }
    assert(all.take(i as int) =~= all);
    proof {
        lemma_accepts_iff_concat_equal(s.spec_bytes(), all);
    }
    cmp.is_valid()
}

/// Relies on `write!` (`core::fmt::Write::write_fmt`) driving `Display::fmt`
/// of `d`. The formatting reaches `cmp` only through its `Write` methods,
/// all of which go through `Comparator::write_str`, and the fields are
/// private: so the chunks offered before stay in the log, in front of any
/// written now, and the expected string is kept. The result is whether the
/// formatting reported success, which is up to `d`.
#[verifier::external_body]
fn write_display<D: core::fmt::Display>(cmp: &mut Comparator<'_>, d: &D) -> (ok: bool)
    ensures
        final(cmp).expected() == old(cmp).expected(),
        old(cmp).written().is_prefix_of(final(cmp).written()),
{
    write!(cmp, "{}", d).is_ok()
}

/// Relies on `write!` (`core::fmt::Write::write_fmt`) driving `Debug::fmt`
/// of `d`. The formatting reaches `cmp` only through its `Write` methods,
/// all of which go through `Comparator::write_str`, and the fields are
/// private: so the chunks offered before stay in the log, in front of any
/// written now, and the expected string is kept. The result is whether the
/// formatting reported success, which is up to `d`.
#[verifier::external_body]
fn write_debug<D: core::fmt::Debug>(cmp: &mut Comparator<'_>, d: &D) -> (ok: bool)
    ensures
        final(cmp).expected() == old(cmp).expected(),
        old(cmp).written().is_prefix_of(final(cmp).written()),
{
    write!(cmp, "{:?}", d).is_ok()
}

/// The outcome of a comparison once the formatting has finished: it matches
/// when the formatting reported success (`ok`) and all of the expected
/// string was matched by the chunks written.
pub fn verdict(ok: bool, cmp: &Comparator) -> (r: bool)
    ensures
        r == (ok && cmp.matched() == cmp.expected().len()),
        r == formatted_match(cmp.expected(), cmp.written(), ok),
{
    ok && cmp.is_valid()
}

/// Formats `d` with `Display` into a fresh comparator for `s`. Returns the
/// outcome, whether the formatting reported success, and the chunks it
/// wrote, in order: the outcome is true exactly when the formatting
/// succeeded and those chunks took the comparator to the end of `s`.
pub fn eq_display_traced(d: &impl core::fmt::Display, s: &str) -> (r: (
    bool,
    bool,
    Ghost<Seq<Seq<u8>>>,
))
    ensures
        r.0 == formatted_match(s.spec_bytes(), r.2@, r.1),
{
    let mut cmp = Comparator::new(s);
    let ok = write_display(&mut cmp, d);
    (verdict(ok, &cmp), ok, Ghost(cmp.written()))
}

/// Formats `d` with `Debug` into a fresh comparator for `s`, as
/// `eq_display_traced` does with `Display`.
pub fn eq_debug_traced(d: &impl core::fmt::Debug, s: &str) -> (r: (
    bool,
    bool,
    Ghost<Seq<Seq<u8>>>,
))
    ensures
        r.0 == formatted_match(s.spec_bytes(), r.2@, r.1),
{
    let mut cmp = Comparator::new(s);
    let ok = write_debug(&mut cmp, d);
    (verdict(ok, &cmp), ok, Ghost(cmp.written()))
}

/// True when the `Display` rendering of `d` is exactly `s`: the formatting
/// reports success, and the chunks it wrote to a comparator for `s`, in
/// order, matched `s` to its end. Which chunks those are, and whether the
/// formatting succeeds, is up to the `Display` impl of `d`;
/// `eq_display_traced` states the outcome for the chunks and status it
/// hands back. Where the impl passes a rejected write on as its own
/// failure, the outcome is that of `eq_chunks` on those chunks
/// (`lemma_formatted_match_iff_rendering_equal`).
pub fn eq_display(d: &impl core::fmt::Display, s: &str) -> (r: bool)
    ensures
        exists|chunks: Seq<Seq<u8>>, ok: bool|
            r == #[trigger] formatted_match(s.spec_bytes(), chunks, ok),
{
    let (r, ok, chunks) = eq_display_traced(d, s);
    assert(r == formatted_match(s.spec_bytes(), chunks@, ok));
    r
}

/// True when the `Debug` rendering of `d` is exactly `s`, as `eq_display`
/// is for `Display`; `eq_debug_traced` states the outcome for the chunks and
/// status it hands back.
pub fn eq_debug(d: &impl core::fmt::Debug, s: &str) -> (r: bool)
    ensures
        exists|chunks: Seq<Seq<u8>>, ok: bool|
            r == #[trigger] formatted_match(s.spec_bytes(), chunks, ok),
{
    let (r, ok, chunks) = eq_debug_traced(d, s);
    assert(r == formatted_match(s.spec_bytes(), chunks@, ok));
    r
}

/// Once a chunk is rejected, no later chunk brings the match back.
proof fn lemma_rejection_is_final(expected: Seq<u8>, chunks: Seq<Seq<u8>>, i: int, k: int)
    requires
        0 <= i <= k <= chunks.len(),
        feed_all(expected, chunks.take(i)) is None,
    ensures
        feed_all(expected, chunks.take(k)) is None,
    decreases k - i,
{
    if i < k {
        lemma_rejection_is_final(expected, chunks, i, k - 1);
        assert(chunks.take(k).drop_last() =~= chunks.take(k - 1));
    }
}

} // verus!
