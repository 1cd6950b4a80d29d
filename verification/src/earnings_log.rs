//! Keeping the earnings log to its most recent entries.
//!
//! The log is a sequence of entries, each starting with a separator line
//! followed by the `EARNINGS SUMMARY` marker. The text is cut at every
//! marker, left to right; the pieces after the first are the entries.
use vstd::prelude::*;

verus! {

/// Number of `═` characters in a separator line.
pub const SEPARATOR_WIDTH: usize = 59;

/// The separator drawn before every entry.
pub const SEPARATOR_CHAR: char = '\u{2550}';

/// The text that starts every entry.
pub open spec fn entry_marker() -> Seq<char> {
    seq!['E', 'A', 'R', 'N', 'I', 'N', 'G', 'S', ' ', 'S', 'U', 'M', 'M', 'A', 'R', 'Y']
}

/// The separator line (without its line break).
pub open spec fn separator_line() -> Seq<char> {
    Seq::new(SEPARATOR_WIDTH as nat, |i: int| SEPARATOR_CHAR)
}

/// Whether `s` holds the marker at position `i`.
pub open spec fn marker_at(s: Seq<char>, i: int) -> bool {
    0 <= i && i + entry_marker().len() <= s.len() && s.subrange(i, i + entry_marker().len())
        == entry_marker()
}

/// `c` glued in front of the first piece of `pieces`.
pub open spec fn prepend_to_first(c: Seq<char>, pieces: Seq<Seq<char>>) -> Seq<Seq<char>> {
    pieces.update(0, c + pieces[0])
}

/// The pieces of `s` between occurrences of the marker, found from left
/// to right without overlap, as `str::split` cuts a string: `n` markers
/// give `n + 1` pieces.
pub open spec fn split_at_markers(s: Seq<char>) -> Seq<Seq<char>>
    decreases s.len(),
{
    if s.len() < entry_marker().len() {
        seq![s]
    } else if s.take(entry_marker().len() as int) == entry_marker() {
        seq![Seq::<char>::empty()] + split_at_markers(s.skip(entry_marker().len() as int))
    } else {
        prepend_to_first(seq![s[0]], split_at_markers(s.drop_first()))
    }
}

/// Number of entries in a log: the markers in it.
pub open spec fn entry_count(s: Seq<char>) -> nat {
    (split_at_markers(s).len() - 1) as nat
}

/// An entry as it is written back: separator line, line break, marker,
/// the entry's text, and a line break when the text does not already end
/// with one.
pub open spec fn rebuilt_entry(piece: Seq<char>) -> Seq<char> {
    separator_line() + seq!['\n'] + entry_marker() + piece + (if piece.len() > 0 && piece.last()
        == '\n' {
        Seq::<char>::empty()
    } else {
        seq!['\n']
    })
}

/// The entries written back one after the other.
pub open spec fn rebuilt_log(pieces: Seq<Seq<char>>) -> Seq<char>
    decreases pieces.len(),
{
    if pieces.len() == 0 {
        Seq::empty()
    } else {
        rebuilt_log(pieces.drop_last()) + rebuilt_entry(pieces.last())
    }
}

/// The log cut down to its last `max_entries` entries, or `None` when it
/// is left as it is: the limit is zero (no limit) or not exceeded.
pub open spec fn trimmed_log(content: Seq<char>, max_entries: nat) -> Option<Seq<char>> {
    let pieces = split_at_markers(content);
    if max_entries == 0 || pieces.len() <= max_entries + 1 {
        None
    } else {
        Some(rebuilt_log(pieces.skip(pieces.len() - max_entries)))
    }
}

/// Cutting always gives at least one piece.
pub proof fn lemma_split_nonempty(s: Seq<char>)
    ensures
        split_at_markers(s).len() >= 1,
    decreases s.len(),
{
    if s.len() < entry_marker().len() {
    } else if s.take(entry_marker().len() as int) == entry_marker() {
        lemma_split_nonempty(s.skip(entry_marker().len() as int));
    } else {
        lemma_split_nonempty(s.drop_first());
    }
}

/// The marker as characters.
fn entry_marker_chars() -> (m: Vec<char>)
    ensures
        m@ == entry_marker(),
{
    let m = vec!['E', 'A', 'R', 'N', 'I', 'N', 'G', 'S', ' ', 'S', 'U', 'M', 'M', 'A', 'R', 'Y'];
    assert(m@ =~= entry_marker());
    m
}

/// Whether the marker `m` starts at position `i` of `s`.
fn marker_starts_at(s: &[char], i: usize, m: &Vec<char>) -> (b: bool)
    requires
        m@ == entry_marker(),
        i + m@.len() <= s@.len(),
    ensures
        b == (s@.skip(i as int).take(entry_marker().len() as int) == entry_marker()),
{
    let mut j: usize = 0;
    while j < m.len()
        invariant
            m@ == entry_marker(),
            i + m@.len() <= s@.len(),
            j <= m@.len(),
            i + m@.len() <= s.len(),
            forall|k: int| 0 <= k < j ==> s@[i + k] == m@[k],
        decreases m.len() - j,
    {
        if s[i + j] != m[j] {
            assert(s@.skip(i as int).take(entry_marker().len() as int)[j as int] != entry_marker()[j as int]);
            return false;
        }
        j = j + 1;
    }
    assert(s@.skip(i as int).take(entry_marker().len() as int) =~= entry_marker());
    true
}

/// Appends `src` to `out`.
fn append_chars(out: &mut Vec<char>, src: &[char])
    ensures
        final(out)@ == old(out)@ + src@,
{
    let mut k: usize = 0;
    while k < src.len()
        invariant
            k <= src@.len(),
            out@ == old(out)@ + src@.take(k as int),
        decreases src.len() - k,
    {
        out.push(src[k]);
        assert(src@.take(k + 1) =~= src@.take(k as int).push(src@[k as int]));
        k = k + 1;
    }
    assert(src@.take(src@.len() as int) =~= src@);
}

/// Cuts `s` at its markers: the pieces, each as a vector of characters.
fn split_log(s: &[char]) -> (pieces: Vec<Vec<char>>)
    ensures
        pieces@.len() == split_at_markers(s@).len(),
        forall|k: int| 0 <= k < pieces@.len() ==> #[trigger] pieces@[k]@ == split_at_markers(s@)[k],
{
    let m = entry_marker_chars();
    let ml = m.len();
    let mut done: Vec<Vec<char>> = Vec::new();
    let ghost done_view: Seq<Seq<char>> = Seq::empty();
    let mut cur: Vec<char> = Vec::new();
    let mut i: usize = 0;
    proof {
        lemma_split_nonempty(s@);
        assert(s@.skip(0) =~= s@);
        assert(prepend_to_first(Seq::empty(), split_at_markers(s@)) =~~= split_at_markers(s@));
        assert(split_at_markers(s@) =~~= done_view + prepend_to_first(cur@, split_at_markers(s@.skip(0))));
    }
    while ml <= s.len() - i
        invariant
            m@ == entry_marker(),
            ml == entry_marker().len(),
            i <= s@.len(),
            done@.len() == done_view.len(),
            forall|k: int| 0 <= k < done@.len() ==> #[trigger] done@[k]@ == done_view[k],
            split_at_markers(s@) == done_view + prepend_to_first(cur@, split_at_markers(s@.skip(i as int))),
        decreases s.len() - i,
    {
        let ghost rest = s@.skip(i as int);
        assert(rest.len() >= entry_marker().len());
        if marker_starts_at(s, i, &m) {
            proof {
                let tail = split_at_markers(rest.skip(entry_marker().len() as int));
                assert(rest.skip(entry_marker().len() as int) =~= s@.skip(i + ml));
                lemma_split_nonempty(rest.skip(entry_marker().len() as int));
                assert(split_at_markers(rest) == seq![Seq::<char>::empty()] + tail);
                assert(prepend_to_first(cur@, seq![Seq::<char>::empty()] + tail) =~~= seq![cur@] + tail);
                assert(prepend_to_first(Seq::<char>::empty(), tail) =~~= tail);
                assert(done_view + prepend_to_first(cur@, split_at_markers(rest)) =~~= done_view.push(cur@)
                    + prepend_to_first(Seq::<char>::empty(), split_at_markers(s@.skip(i + ml))));
            }
            let finished = cur;
            done.push(finished);
            proof {
                done_view = done_view.push(finished@);
            }
            cur = Vec::new();
            i = i + ml;
        } else {
            let c = s[i];
            proof {
                let tail = split_at_markers(rest.drop_first());
                assert(rest.drop_first() =~= s@.skip(i + 1));
                assert(rest[0] == c);
                assert(split_at_markers(rest) == prepend_to_first(seq![c], tail));
                lemma_split_nonempty(rest.drop_first());
                assert(cur@ + (seq![c] + tail[0]) =~= cur@.push(c) + tail[0]);
                assert(prepend_to_first(cur@, prepend_to_first(seq![c], tail)) =~~= prepend_to_first(
                    cur@.push(c),
                    tail,
                ));
            }
            cur.push(c);
            i = i + 1;
        }
    }
    let ghost rest = s@.skip(i as int);
    proof {
        assert(split_at_markers(rest) == seq![rest]);
        assert(prepend_to_first(cur@, seq![rest]) =~~= seq![cur@ + rest]);
    }
    let ghost cur0 = cur@;
    let mut k = i;
    while k < s.len()
        invariant
            i <= k <= s@.len(),
            cur@ == cur0 + s@.subrange(i as int, k as int),
        decreases s.len() - k,
    {
        cur.push(s[k]);
        proof {
            assert(s@.subrange(i as int, k + 1) =~= s@.subrange(i as int, k as int).push(s@[k as int]));
        }
        k = k + 1;
    }
    proof {
        assert(s@.subrange(i as int, s@.len() as int) =~= rest);
    }
    let last = cur;
    done.push(last);
    proof {
        done_view = done_view.push(last@);
        assert(split_at_markers(s@) =~~= done_view);
    }
    done
}

/// Appends `piece` written back as an entry.
fn append_rebuilt_entry(out: &mut Vec<char>, piece: &[char], m: &Vec<char>)
    requires
        m@ == entry_marker(),
    ensures
        final(out)@ == old(out)@ + rebuilt_entry(piece@),
{
    let mut n: usize = 0;
    while n < SEPARATOR_WIDTH
        invariant
            n <= SEPARATOR_WIDTH,
            out@ == old(out)@ + separator_line().take(n as int),
        decreases SEPARATOR_WIDTH - n,
    {
        out.push(SEPARATOR_CHAR);
        assert(separator_line().take(n + 1) =~= separator_line().take(n as int).push(SEPARATOR_CHAR));
        n = n + 1;
    }
    assert(separator_line().take(SEPARATOR_WIDTH as int) =~= separator_line());
    out.push('\n');
    append_chars(out, m.as_slice());
    append_chars(out, piece);
    let ends_with_newline = piece.len() > 0 && piece[piece.len() - 1] == '\n';
    if !ends_with_newline {
        out.push('\n');
    }
    assert(out@ =~= old(out)@ + rebuilt_entry(piece@));
}

/// The earnings log `content` cut down to its last `max_entries` entries,
/// or `None` when it stays as it is: `max_entries` is zero (no limit) or
/// the log holds no more entries than that.
pub fn trim_earnings_log(content: &[char], max_entries: usize) -> (r: Option<Vec<char>>)
    ensures
        match r {
            Some(v) => trimmed_log(content@, max_entries as nat) == Some(v@),
            None => trimmed_log(content@, max_entries as nat) is None,
        },
{
    if max_entries == 0 {
        return None;
    }
    let pieces = split_log(content);
    let ghost all = split_at_markers(content@);
    proof {
        lemma_split_nonempty(content@);
    }
    let entries = pieces.len() - 1;
    if entries <= max_entries {
        return None;
    }
    let start = pieces.len() - max_entries;
    let ghost kept = all.skip(start as int);
    let m = entry_marker_chars();
    let mut out: Vec<char> = Vec::new();
    let mut k = start;
    assert(kept.take(0) =~= Seq::<Seq<char>>::empty());
    while k < pieces.len()
        invariant
            m@ == entry_marker(),
            start <= k <= pieces@.len(),
            pieces@.len() == all.len(),
            forall|j: int| 0 <= j < pieces@.len() ==> #[trigger] pieces@[j]@ == all[j],
            kept == all.skip(start as int),
            out@ == rebuilt_log(kept.take(k - start)),
        decreases pieces.len() - k,
    {
        append_rebuilt_entry(&mut out, pieces[k].as_slice(), &m);
        proof {
            assert(kept.take(k + 1 - start).drop_last() =~= kept.take(k - start));
            assert(kept.take(k + 1 - start).last() == all[k as int]);
        }
        k = k + 1;
    }
    assert(kept.take(pieces.len() - start) =~= kept);
    Some(out)
}

/// Whether `s` holds the marker nowhere.
pub open spec fn marker_free(s: Seq<char>) -> bool {
    forall|i: int| !#[trigger] marker_at(s, i)
}

/// The marker holds neither a line break nor a separator character, and
/// starts with `E`.
proof fn lemma_marker_chars()
    ensures
        forall|j: int|
            0 <= j < entry_marker().len() ==> #[trigger] entry_marker()[j] != '\n'
                && entry_marker()[j] != SEPARATOR_CHAR,
{
    assert forall|j: int| 0 <= j < entry_marker().len() implies #[trigger] entry_marker()[j] != '\n'
        && entry_marker()[j] != SEPARATOR_CHAR by {
        let m = entry_marker();
        assert(m[0] == 'E' && m[1] == 'A' && m[2] == 'R' && m[3] == 'N' && m[4] == 'I' && m[5] == 'N'
            && m[6] == 'G' && m[7] == 'S' && m[8] == ' ' && m[9] == 'S' && m[10] == 'U' && m[11] == 'M'
            && m[12] == 'M' && m[13] == 'A' && m[14] == 'R' && m[15] == 'Y');
    }
}

/// No marker can cover a line break or a separator character.
proof fn lemma_no_marker_over(s: Seq<char>, i: int, q: int)
    requires
        i <= q < i + entry_marker().len(),
        0 <= q < s.len(),
        s[q] == '\n' || s[q] == SEPARATOR_CHAR,
    ensures
        !marker_at(s, i),
{
    lemma_marker_chars();
    if marker_at(s, i) {
        assert(s.subrange(i, i + entry_marker().len())[q - i] == s[q]);
        assert(entry_marker()[q - i] == s[q]);
    }
}

/// The first piece of a cut is where the text starts.
proof fn lemma_split_first_is_prefix(s: Seq<char>)
    ensures
        split_at_markers(s).len() >= 1,
        split_at_markers(s)[0].len() <= s.len(),
        s.take(split_at_markers(s)[0].len() as int) == split_at_markers(s)[0],
    decreases s.len(),
{
    lemma_split_nonempty(s);
    if s.len() < entry_marker().len() {
        assert(s.take(s.len() as int) =~= s);
    } else if s.take(entry_marker().len() as int) == entry_marker() {
        assert(s.take(0) =~= Seq::<char>::empty());
    } else {
        lemma_split_first_is_prefix(s.drop_first());
        let r0 = split_at_markers(s.drop_first())[0];
        assert(s.take(r0.len() as int + 1) =~= seq![s[0]] + r0);
    }
}

/// Every piece of a cut is free of the marker.
pub proof fn lemma_split_pieces_marker_free(s: Seq<char>)
    ensures
        forall|k: int|
            0 <= k < split_at_markers(s).len() ==> marker_free(#[trigger] split_at_markers(s)[k]),
    decreases s.len(),
{
    let ml = entry_marker().len() as int;
    lemma_split_nonempty(s);
    if s.len() < ml {
        assert forall|i: int| !#[trigger] marker_at(s, i) by {}
    } else if s.take(ml) == entry_marker() {
        lemma_split_pieces_marker_free(s.skip(ml));
        let e = Seq::<char>::empty();
        assert forall|i: int| !#[trigger] marker_at(e, i) by {}
        assert forall|k: int| 0 <= k < split_at_markers(s).len() implies marker_free(
            #[trigger] split_at_markers(s)[k],
        ) by {
            if k > 0 {
                assert(split_at_markers(s)[k] == split_at_markers(s.skip(ml))[k - 1]);
            }
        }
    } else {
        let t = s.drop_first();
        lemma_split_pieces_marker_free(t);
        lemma_split_first_is_prefix(t);
        lemma_split_nonempty(t);
        let r0 = split_at_markers(t)[0];
        let p0 = seq![s[0]] + r0;
        assert(marker_free(r0));
        assert forall|i: int| !#[trigger] marker_at(p0, i) by {
            if marker_at(p0, i) {
                if i == 0 {
                    assert(s.take(r0.len() as int + 1) =~= p0);
                    assert(p0.subrange(0, ml) =~= s.take(ml));
                } else {
                    assert(p0.subrange(i, i + ml) =~= r0.subrange(i - 1, i - 1 + ml));
                    assert(marker_at(r0, i - 1));
                }
            }
        }
        assert forall|k: int| 0 <= k < split_at_markers(s).len() implies marker_free(
            #[trigger] split_at_markers(s)[k],
        ) by {
            if k > 0 {
                assert(split_at_markers(s)[k] == split_at_markers(t)[k]);
            } else {
                assert(split_at_markers(s)[0] == p0);
            }
        }
    }
}

/// Text in which no marker starts goes, whole, in front of the first
/// piece of what follows it.
proof fn lemma_split_after_marker_free_prefix(a: Seq<char>, b: Seq<char>)
    requires
        forall|i: int| 0 <= i < a.len() ==> !#[trigger] marker_at(a + b, i),
    ensures
        split_at_markers(a + b) =~~= prepend_to_first(a, split_at_markers(b)),
    decreases a.len(),
{
    let ml = entry_marker().len() as int;
    let s = a + b;
    lemma_split_nonempty(b);
    if a.len() == 0 {
        assert(s =~= b);
        assert(a + split_at_markers(b)[0] =~= split_at_markers(b)[0]);
    } else if s.len() < ml {
        assert(split_at_markers(b) == seq![b]);
    } else {
        assert(!marker_at(s, 0));
        assert(s.subrange(0, ml) =~= s.take(ml));
        let a1 = a.drop_first();
        assert(s.drop_first() =~= a1 + b);
        assert forall|i: int| 0 <= i < a1.len() implies !#[trigger] marker_at(a1 + b, i) by {
            if marker_at(a1 + b, i) {
                assert((a1 + b).subrange(i, i + ml) =~= s.subrange(i + 1, i + 1 + ml));
                assert(marker_at(s, i + 1));
            }
        }
        lemma_split_after_marker_free_prefix(a1, b);
        let x = split_at_markers(b);
        assert(seq![s[0]] + (a1 + x[0]) =~= a + x[0]);
    }
}

/// A marker at the front gives an empty first piece.
proof fn lemma_split_after_marker(v: Seq<char>)
    ensures
        split_at_markers(entry_marker() + v) =~~= seq![Seq::<char>::empty()] + split_at_markers(v),
{
    let s = entry_marker() + v;
    let ml = entry_marker().len() as int;
    assert(s.take(ml) =~= entry_marker());
    assert(s.skip(ml) =~= v);
}

/// The written-back log starts with its first entry.
proof fn lemma_rebuilt_log_front(pieces: Seq<Seq<char>>)
    requires
        pieces.len() > 0,
    ensures
        rebuilt_log(pieces) =~= rebuilt_entry(pieces[0]) + rebuilt_log(pieces.drop_first()),
    decreases pieces.len(),
{
    if pieces.len() == 1 {
        assert(pieces.drop_last() =~= Seq::<Seq<char>>::empty());
        assert(pieces.drop_first() =~= Seq::<Seq<char>>::empty());
    } else {
        lemma_rebuilt_log_front(pieces.drop_last());
        assert(pieces.drop_last().drop_first() =~= pieces.drop_first().drop_last());
        assert(pieces.drop_first().last() == pieces.last());
    }
}

/// Written-back marker-free pieces cut into one more piece than there are
/// entries.
proof fn lemma_split_rebuilt_log(pieces: Seq<Seq<char>>)
    requires
        forall|k: int| 0 <= k < pieces.len() ==> marker_free(#[trigger] pieces[k]),
    ensures
        split_at_markers(rebuilt_log(pieces)).len() == pieces.len() + 1,
        rebuilt_log(pieces).len() > 0 ==> rebuilt_log(pieces)[0] == SEPARATOR_CHAR,
        forall|k: int|
            0 <= k < pieces.len() ==> #[trigger] split_at_markers(rebuilt_log(pieces))[k + 1].take(
                pieces[k].len() as int,
            ) == pieces[k],
    decreases pieces.len(),
{
    let ml = entry_marker().len() as int;
    if pieces.len() == 0 {
        assert(split_at_markers(Seq::<char>::empty()) == seq![Seq::<char>::empty()]);
    } else {
        let p = pieces[0];
        let rest = pieces.drop_first();
        assert forall|k: int| 0 <= k < rest.len() implies marker_free(#[trigger] rest[k]) by {
            assert(rest[k] == pieces[k + 1]);
        }
        lemma_split_rebuilt_log(rest);
        lemma_rebuilt_log_front(pieces);
        let t = rebuilt_log(rest);
        let nl = if p.len() > 0 && p.last() == '\n' {
            Seq::<char>::empty()
        } else {
            seq!['\n']
        };
        let pn = p + nl;
        let sep = separator_line() + seq!['\n'];
        assert(marker_free(pieces[0]));
        // The entry's text and its closing line break: no marker starts there.
        let v = pn + t;
        assert(pn.len() > 0 && pn.last() == '\n');
        assert forall|i: int| 0 <= i < pn.len() implies !#[trigger] marker_at(pn + t, i) by {
            if i + ml <= p.len() {
                if marker_at(v, i) {
                    assert(v.subrange(i, i + ml) =~= p.subrange(i, i + ml));
                    assert(marker_at(p, i));
                }
            } else {
                assert(v[pn.len() - 1] == '\n');
                lemma_no_marker_over(v, i, pn.len() - 1);
            }
        }
        lemma_split_after_marker_free_prefix(pn, t);
        lemma_split_nonempty(t);
        lemma_split_after_marker(v);
        let w = entry_marker() + v;
        let whole = sep + w;
        assert forall|i: int| 0 <= i < sep.len() implies !#[trigger] marker_at(sep + w, i) by {
            assert(whole[i] == sep[i]);
            lemma_no_marker_over(whole, i, i);
        }
        lemma_split_after_marker_free_prefix(sep, w);
        lemma_split_nonempty(w);
        assert(rebuilt_entry(p) + t =~= whole);
        assert(whole[0] == SEPARATOR_CHAR);
        let sw = split_at_markers(whole);
        let sv = split_at_markers(v);
        let st = split_at_markers(t);
        assert(sw =~~= prepend_to_first(sep, split_at_markers(w)));
        assert(split_at_markers(w) =~~= seq![Seq::<char>::empty()] + sv);
        assert(sv =~~= prepend_to_first(pn, st));
        assert forall|k: int| 0 <= k < pieces.len() implies #[trigger] split_at_markers(
            rebuilt_log(pieces),
        )[k + 1].take(pieces[k].len() as int) == pieces[k] by {
            assert(split_at_markers(rebuilt_log(pieces)) == sw);
            assert(sw[k + 1] == split_at_markers(w)[k + 1]);
            assert(split_at_markers(w)[k + 1] == sv[k]);
            if k == 0 {
                assert(sv[0] == pn + st[0]);
                assert((pn + st[0]).take(p.len() as int) =~= p);
            } else {
                assert(sv[k] == st[k]);
                assert(st[(k - 1) + 1].take(rest[k - 1].len() as int) == rest[k - 1]);
                assert(rest[k - 1] == pieces[k]);
            }
        }
    }
}

/// Keeping the last entries: a trimmed log holds exactly `max_entries`
/// entries, so trimming it again with the same limit leaves it as it is.
pub proof fn law_trimmed_log_keeps_max_entries(content: Seq<char>, max_entries: nat)
    requires
        trimmed_log(content, max_entries) is Some,
    ensures
        entry_count(trimmed_log(content, max_entries)->0) == max_entries,
        trimmed_log(trimmed_log(content, max_entries)->0, max_entries) is None,
{
    let pieces = split_at_markers(content);
    let kept = pieces.skip(pieces.len() - max_entries);
    lemma_split_pieces_marker_free(content);
    assert forall|k: int| 0 <= k < kept.len() implies marker_free(#[trigger] kept[k]) by {
        assert(kept[k] == pieces[k + pieces.len() - max_entries]);
    }
    lemma_split_rebuilt_log(kept);
}

/// Trimming keeps exactly the newest entries: when the limit is positive
/// and the log holds more entries than that, the trimmed log has exactly
/// `max_entries` entries, and its `k`-th entry begins with the text of the
/// `k`-th of the last `max_entries` entries of the log, in order.
pub proof fn law_trimmed_log_holds_last_entries(content: Seq<char>, max_entries: nat)
    requires
        max_entries > 0,
        split_at_markers(content).len() > max_entries + 1,
    ensures
        trimmed_log(content, max_entries) is Some,
        ({
            let before = split_at_markers(content);
            let after = split_at_markers(trimmed_log(content, max_entries)->0);
            &&& after.len() == max_entries + 1
            &&& forall|k: int|
                0 <= k < max_entries ==> #[trigger] after[k + 1].take(
                    before[before.len() - max_entries + k].len() as int,
                ) == before[before.len() - max_entries + k]
        }),
{
    let pieces = split_at_markers(content);
    let kept = pieces.skip(pieces.len() - max_entries);
    lemma_split_pieces_marker_free(content);
    assert forall|k: int| 0 <= k < kept.len() implies marker_free(#[trigger] kept[k]) by {
        assert(kept[k] == pieces[k + pieces.len() - max_entries]);
    }
    lemma_split_rebuilt_log(kept);
    assert forall|k: int| 0 <= k < max_entries implies #[trigger] split_at_markers(
        trimmed_log(content, max_entries)->0,
    )[k + 1].take(pieces[pieces.len() - max_entries + k].len() as int)
        == pieces[pieces.len() - max_entries + k] by {
        assert(kept[k] == pieces[pieces.len() - max_entries + k]);
        assert(split_at_markers(rebuilt_log(kept))[k + 1].take(kept[k].len() as int) == kept[k]);
    }
}

/// A log is left as it is exactly when there is no limit or it holds no
/// more entries than the limit.
pub proof fn law_trimmed_log_untouched_within_limit(content: Seq<char>, max_entries: nat)
    ensures
        trimmed_log(content, max_entries) is None <==> (max_entries == 0 || split_at_markers(
            content,
        ).len() <= max_entries + 1),
{
}

/// The pieces glued back together with the marker between each two.
pub open spec fn joined_with_markers(pieces: Seq<Seq<char>>) -> Seq<char>
    decreases pieces.len(),
{
    if pieces.len() <= 1 {
        if pieces.len() == 1 {
            pieces[0]
        } else {
            Seq::empty()
        }
    } else {
        pieces[0] + entry_marker() + joined_with_markers(pieces.drop_first())
    }
}

/// Cutting loses nothing: the pieces with the marker put back between
/// them give the text again, and no piece holds a marker.
pub proof fn law_split_loses_nothing(s: Seq<char>)
    ensures
        joined_with_markers(split_at_markers(s)) == s,
        forall|k: int|
            0 <= k < split_at_markers(s).len() ==> marker_free(#[trigger] split_at_markers(s)[k]),
    decreases s.len(),
{
    lemma_split_pieces_marker_free(s);
    lemma_split_nonempty(s);
    let ml = entry_marker().len() as int;
    if s.len() < ml {
    } else if s.take(ml) == entry_marker() {
        let rest = s.skip(ml);
        law_split_loses_nothing(rest);
        lemma_split_nonempty(rest);
        let ps = split_at_markers(s);
        assert(ps.drop_first() =~~= split_at_markers(rest));
        assert(ps[0] == Seq::<char>::empty());
        assert(s =~= Seq::<char>::empty() + entry_marker() + rest);
    } else {
        let t = s.drop_first();
        law_split_loses_nothing(t);
        lemma_split_nonempty(t);
        let x = split_at_markers(t);
        let ps = split_at_markers(s);
        assert(ps == prepend_to_first(seq![s[0]], x));
        if x.len() == 1 {
            assert(s =~= seq![s[0]] + x[0]);
        } else {
            assert(ps.drop_first() =~~= x.drop_first());
            assert(joined_with_markers(x) == x[0] + entry_marker() + joined_with_markers(x.drop_first()));
            assert(s =~= seq![s[0]] + t);
            assert(s =~= (seq![s[0]] + x[0]) + entry_marker() + joined_with_markers(x.drop_first()));
        }
    }
}

} // verus!
