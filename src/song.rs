use vstd::prelude::*;
use vstd::string::StringExecFns;

verus! {

/// The ordinal name of day `d` (counted from 0).
pub open spec fn day_name(d: int) -> Seq<char> {
    if d == 0 {
        "first"@
    } else if d == 1 {
        "second"@
    } else if d == 2 {
        "third"@
    } else if d == 3 {
        "fourth"@
    } else if d == 4 {
        "fifth"@
    } else if d == 5 {
        "sixth"@
    } else if d == 6 {
        "seventh"@
    } else if d == 7 {
        "eighth"@
    } else if d == 8 {
        "ninth"@
    } else if d == 9 {
        "tenth"@
    } else if d == 10 {
        "eleventh"@
    } else {
        "twelfth"@
    }
}

/// The gift of day `g` (counted from 0), in its stored form: the second one
/// keeps a trailing ", and".
pub open spec fn gift(g: int) -> Seq<char> {
    if g == 0 {
        "A partridge in a pear tree"@
    } else if g == 1 {
        "Two turtle doves, and"@
    } else if g == 2 {
        "Three French hens"@
    } else if g == 3 {
        "Four calling birds"@
    } else if g == 4 {
        "Five golden rings"@
    } else if g == 5 {
        "Six geese a-laying"@
    } else if g == 6 {
        "Seven swans a-swimming"@
    } else if g == 7 {
        "Eight maids a-milking"@
    } else if g == 8 {
        "Nine ladies dancing"@
    } else if g == 9 {
        "Ten lords a-leaping"@
    } else if g == 10 {
        "Eleven pipers piping"@
    } else {
        "Twelve drummers drumming"@
    }
}

/// The number of verses in the song.
pub const DAY_COUNT: usize = 12;

fn day_word(d: usize) -> (r: &'static str)
    requires
        d < DAY_COUNT,
    ensures
        r@ == day_name(d as int),
{
    if d == 0 {
        "first"
    } else if d == 1 {
        "second"
    } else if d == 2 {
        "third"
    } else if d == 3 {
        "fourth"
    } else if d == 4 {
        "fifth"
    } else if d == 5 {
        "sixth"
    } else if d == 6 {
        "seventh"
    } else if d == 7 {
        "eighth"
    } else if d == 8 {
        "ninth"
    } else if d == 9 {
        "tenth"
    } else if d == 10 {
        "eleventh"
    } else {
        "twelfth"
    }
}

fn gift_words(g: usize) -> (r: &'static str)
    requires
        g < DAY_COUNT,
    ensures
        r@ == gift(g as int),
{
    if g == 0 {
        "A partridge in a pear tree"
    } else if g == 1 {
        "Two turtle doves, and"
    } else if g == 2 {
        "Three French hens"
    } else if g == 3 {
        "Four calling birds"
    } else if g == 4 {
        "Five golden rings"
    } else if g == 5 {
        "Six geese a-laying"
    } else if g == 6 {
        "Seven swans a-swimming"
    } else if g == 7 {
        "Eight maids a-milking"
    } else if g == 8 {
        "Nine ladies dancing"
    } else if g == 9 {
        "Ten lords a-leaping"
    } else if g == 10 {
        "Eleven pipers piping"
    } else {
        "Twelve drummers drumming"
    }
}

/// The opening of the verse of day `d`.
pub open spec fn opening(d: int) -> Seq<char> {
    "On the "@ + day_name(d) + " day of Christmas my true love sent to me:"@
}

/// The clause that gift `g` adds to the verse of day `d`: a separator (" and "
/// before the first gift on every day but the first, else " "), the gift, and
/// a comma after every gift but the first.
pub open spec fn gift_clause(d: int, g: int) -> Seq<char> {
    (if d > 0 && g == 0 {
        " and "@
    } else {
        " "@
    }) + gift(g) + (if g > 0 {
        ","@
    } else {
        Seq::empty()
    })
}

/// The clauses of the verse of day `d` for gifts `d`, `d - 1`, ..., `k`.
pub open spec fn gifts_down_to(d: int, k: int) -> Seq<char>
    decreases d - k,
{
    if k >= d {
        gift_clause(d, d)
    } else {
        gifts_down_to(d, k + 1) + gift_clause(d, k)
    }
}

/// The verse of day `d` (counted from 0).
pub open spec fn verse(d: int) -> Seq<char> {
    opening(d) + gifts_down_to(d, 0)
}

/// The whole song, one verse per day.
pub open spec fn song() -> Seq<Seq<char>> {
    Seq::new(DAY_COUNT as nat, |d: int| verse(d))
}

/// Builds the verse of day `d`.
fn make_verse(d: usize) -> (r: String)
    requires
        d < DAY_COUNT,
    ensures
        r@ == verse(d as int),
{
    let mut v = String::new();
    v.append("On the ");
    v.append(day_word(d));
    v.append(" day of Christmas my true love sent to me:");
    let mut g: usize = d + 1;
    while g > 0
        invariant
            d < DAY_COUNT,
            g <= d + 1,
            g == d + 1 ==> v@ == opening(d as int),
            g <= d ==> v@ == opening(d as int) + gifts_down_to(d as int, g as int),
        decreases g,
    {
        g = g - 1;
        let ghost before = v@;
        if d > 0 && g == 0 {
            v.append(" and ");
        } else {
            v.append(" ");
        }
        v.append(gift_words(g));
        if g > 0 {
            v.append(",");
        }
        proof {
            assert(v@ =~= before + gift_clause(d as int, g as int));
            if g < d {
                assert(opening(d as int) + gifts_down_to(d as int, g as int) =~= opening(d as int)
                    + gifts_down_to(d as int, g + 1) + gift_clause(d as int, g as int));
            }
        }
    }
    v
}

/// A lazy, finite, non-restartable producer of lines.
pub trait LineSource {
    /// The producer is in a consistent state.
    spec fn inv(&self) -> bool;

    /// The lines still to come, in order.
    spec fn remaining(&self) -> Seq<Seq<char>>;

    /// Produces the next line, or `None` once every line has been produced.
    fn next(&mut self) -> (r: Option<String>)
        requires
            old(self).inv(),
        ensures
            final(self).inv(),
            match r {
                Some(line) => old(self).remaining().len() > 0 && line@ == old(self).remaining()[0]
                    && final(self).remaining() == old(self).remaining().drop_first(),
                None => old(self).remaining().len() == 0 && final(self).remaining().len() == 0,
            },
    ;
}

/// Produces the verses of the song, one per day.
pub struct SongIter {
    day: usize,
}

impl SongIter {
    /// The first day not yet sung.
    pub closed spec fn next_day(&self) -> nat {
        self.day as nat
    }

    /// A producer at the first verse.
    pub fn new() -> (r: Self)
        ensures
            r.inv(),
            r.next_day() == 0,
            r.remaining() == song(),
    {
        let r = SongIter { day: 0 };
        proof {
            assert(r.remaining() =~= song());
        }
        r
    }
}

impl LineSource for SongIter {
    closed spec fn inv(&self) -> bool {
        self.day <= DAY_COUNT
    }

    /// The verses of the days from `next_day()` on.
    open spec fn remaining(&self) -> Seq<Seq<char>> {
        song().skip(self.next_day() as int)
    }

    fn next(&mut self) -> (r: Option<String>)
        ensures
            r is Some ==> final(self).next_day() == old(self).next_day() + 1,
    {
        if self.day >= DAY_COUNT {
            return None;
        }
        let v = make_verse(self.day);
        self.day = self.day + 1;
        proof {
            assert(self.remaining() =~= old(self).remaining().drop_first());
        }
        Some(v)
    }
}

/// The decimal digit `k`.
pub open spec fn digit(k: int) -> Seq<char> {
    if k == 0 {
        "0"@
    } else if k == 1 {
        "1"@
    } else if k == 2 {
        "2"@
    } else if k == 3 {
        "3"@
    } else if k == 4 {
        "4"@
    } else if k == 5 {
        "5"@
    } else if k == 6 {
        "6"@
    } else if k == 7 {
        "7"@
    } else if k == 8 {
        "8"@
    } else {
        "9"@
    }
}

/// `k` written with two decimal digits, zero-padded.
pub open spec fn two_digits(k: int) -> Seq<char> {
    digit(k / 10) + digit(k % 10)
}

/// The verse of day `d` (counted from 0) prefixed with its number from 1:
/// `"{NN}: {verse}"`.
pub open spec fn numbered_verse(d: int) -> Seq<char> {
    two_digits(d + 1) + ": "@ + verse(d)
}

/// The whole song with each verse numbered.
pub open spec fn numbered_song() -> Seq<Seq<char>> {
    Seq::new(DAY_COUNT as nat, |d: int| numbered_verse(d))
}

fn digit_str(k: usize) -> (r: &'static str)
    requires
        k < 10,
    ensures
        r@ == digit(k as int),
{
    if k == 0 {
        "0"
    } else if k == 1 {
        "1"
    } else if k == 2 {
        "2"
    } else if k == 3 {
        "3"
    } else if k == 4 {
        "4"
    } else if k == 5 {
        "5"
    } else if k == 6 {
        "6"
    } else if k == 7 {
        "7"
    } else if k == 8 {
        "8"
    } else {
        "9"
    }
}

/// Produces the verses of the song, each prefixed with its two-digit number.
pub struct NumberedSongIter {
    song: SongIter,
}

impl LineSource for NumberedSongIter {
    closed spec fn inv(&self) -> bool {
        self.song.inv()
    }

    /// The numbered verses of the days from `next_day()` on.
    open spec fn remaining(&self) -> Seq<Seq<char>> {
        numbered_song().skip(self.next_day() as int)
    }

    fn next(&mut self) -> (r: Option<String>) {
        let number = self.song.day + 1;
        match self.song.next() {
            Some(v) => {
                let mut line = String::new();
                line.append(digit_str(number / 10));
                line.append(digit_str(number % 10));
                line.append(": ");
                line.append(v.as_str());
                proof {
                    assert(line@ =~= numbered_verse(old(self).song.day as int));
                    assert(self.remaining() =~= old(self).remaining().drop_first());
                }
                Some(line)
            },
            None => None,
        }
    }
}

impl NumberedSongIter {
    /// The first day not yet sung.
    pub closed spec fn next_day(&self) -> nat {
        self.song.day as nat
    }
}

/// A producer of the numbered verses, from the first.
pub fn numbered_song_iter() -> (r: NumberedSongIter)
    ensures
        r.inv(),
        r.next_day() == 0,
        r.remaining() == numbered_song(),
{
    let r = NumberedSongIter { song: SongIter::new() };
    proof {
        assert(r.remaining() =~= numbered_song());
    }
    r
}

/// Each numbered verse is the verse of the same day, prefixed with the day's
/// number from 1 in two zero-padded digits and ": ".
pub proof fn lemma_numbered_song_prefixes_song()
    ensures
        numbered_song().len() == song().len(),
        forall|d: int|
            0 <= d < song().len() ==> #[trigger] numbered_song()[d] == two_digits(d + 1) + ": "@
                + song()[d],
{
}

/// What a dropping producer with parameter `n` yields from the lines `src`
/// when `c` more lines of the current window are still to be passed on: with
/// none left, the next line is dropped and a new window of `n` lines to pass
/// on begins.
pub open spec fn kept_lines(src: Seq<Seq<char>>, c: nat, n: nat) -> Seq<Seq<char>>
    decreases src.len(),
{
    if src.len() == 0 {
        Seq::empty()
    } else if c > 0 {
        seq![src[0]] + kept_lines(src.drop_first(), (c - 1) as nat, n)
    } else if src.len() == 1 {
        Seq::empty()
    } else {
        seq![src[1]] + kept_lines(src.subrange(2, src.len() as int), (n - 1) as nat, n)
    }
}

/// The position in the source of the `j`-th line (from 0) that a dropping
/// producer with parameter `n` passes on, when `c` lines of its current window
/// are pending.
pub open spec fn kept_index(c: nat, n: nat, j: int) -> int {
    if j < c {
        j
    } else {
        c + (j - c) + (j - c) / (n as int) + 1
    }
}

/// How many of `len` source lines a dropping producer with parameter `n`
/// passes on, when `c` lines of its current window are pending.
pub open spec fn kept_count(c: nat, n: nat, len: nat) -> int {
    if len <= c {
        len as int
    } else {
        len - (len - c + n) / ((n + 1) as int)
    }
}

/// A dropping producer works in windows of `n + 1` source lines: it passes on
/// the `c` pending lines, then of each following window it drops the first
/// line and passes on the rest, ending with the source.
pub proof fn lemma_kept_lines_windows(src: Seq<Seq<char>>, c: nat, n: nat)
    requires
        n >= 1,
    ensures
        kept_lines(src, c, n).len() == kept_count(c, n, src.len()),
        forall|j: int|
            0 <= j < kept_lines(src, c, n).len() ==> 0 <= #[trigger] kept_index(c, n, j) < src.len(),
        forall|j: int|
            0 <= j < kept_lines(src, c, n).len() ==> #[trigger] kept_lines(src, c, n)[j] == src[kept_index(
                c,
                n,
                j,
            )],
    decreases src.len(),
{
    let k = kept_lines(src, c, n);
    let ni = n as int;
    let len = src.len() as int;
    if src.len() == 0 {
        assert(k.len() == 0);
    } else if c > 0 {
        let c1 = (c - 1) as nat;
        let t = src.drop_first();
        lemma_kept_lines_windows(t, c1, n);
        let kt = kept_lines(t, c1, n);
        assert forall|j: int| 0 <= j < k.len() implies 0 <= #[trigger] kept_index(c, n, j) < len by {
            if j > 0 {
                assert(kept_index(c1, n, j - 1) + 1 == kept_index(c, n, j));
            }
        }
        assert forall|j: int| 0 <= j < k.len() implies #[trigger] k[j] == src[kept_index(c, n, j)] by {
            if j > 0 {
                assert(k[j] == kt[j - 1]);
                assert(kt[j - 1] == t[kept_index(c1, n, j - 1)]);
                assert(kept_index(c1, n, j - 1) + 1 == kept_index(c, n, j));
            }
        }
    } else if src.len() == 1 {
        assert(k.len() == 0);
        vstd::arithmetic::div_mod::lemma_basic_div(0, ni + 1);
        vstd::arithmetic::div_mod::lemma_div_plus_one(0, ni + 1);
    } else {
        let n1 = (n - 1) as nat;
        let t = src.subrange(2, len);
        lemma_kept_lines_windows(t, n1, n);
        let kt = kept_lines(t, n1, n);
        vstd::arithmetic::div_mod::lemma_div_plus_one(len - 1, ni + 1);
        if len - 1 < ni + 1 {
            vstd::arithmetic::div_mod::lemma_basic_div(len - 1, ni + 1);
        }
        assert forall|j: int| 0 <= j < k.len() implies 0 <= #[trigger] kept_index(c, n, j) < len
            && (j > 0 ==> kept_index(n1, n, j - 1) + 2 == kept_index(c, n, j)) by {
            if j == 0 {
                vstd::arithmetic::div_mod::lemma_basic_div(0, ni);
            } else {
                assert(0 <= kept_index(n1, n, j - 1) < t.len());
                if j < ni {
                    vstd::arithmetic::div_mod::lemma_basic_div(j, ni);
                } else {
                    vstd::arithmetic::div_mod::lemma_div_plus_one(j - ni, ni);
                }
            }
        }
        assert forall|j: int| 0 <= j < k.len() implies #[trigger] k[j] == src[kept_index(c, n, j)] by {
            assert(0 <= kept_index(c, n, j) < len);
            if j > 0 {
                assert(k[j] == kt[j - 1]);
                assert(kt[j - 1] == t[kept_index(n1, n, j - 1)]);
            }
        }
    }
}

/// Passes on the lines of another producer in windows of `n + 1`: the first
/// line of each window is dropped, the other `n` are passed on. With `n == 2`
/// the song comes out without its verses 1, 4, 7 and 10.
pub struct DuplicateIter<I> {
    iter: I,
    count: usize,
    n: usize,
}

impl<I: LineSource> DuplicateIter<I> {
    /// How many lines each window passes on.
    pub closed spec fn window(&self) -> nat {
        self.n as nat
    }

    /// The lines of the current window still to be passed on.
    pub closed spec fn pending(&self) -> nat {
        self.count as nat
    }

    /// The underlying producer.
    pub closed spec fn source(&self) -> I {
        self.iter
    }

    /// Wraps `iter`, starting at the beginning of a window.
    pub fn new(iter: I, n: usize) -> (r: Self)
        requires
            iter.inv(),
            n >= 2,
        ensures
            r.inv(),
            r.window() == n,
            r.pending() == 0,
            r.source() == iter,
            r.remaining() == kept_lines(iter.remaining(), 0, n as nat),
    {
        DuplicateIter { iter, count: 0, n }
    }
}

impl<I: LineSource> LineSource for DuplicateIter<I> {
    closed spec fn inv(&self) -> bool {
        self.n >= 2 && self.iter.inv()
    }

    open spec fn remaining(&self) -> Seq<Seq<char>> {
        kept_lines(self.source().remaining(), self.pending(), self.window())
    }

    fn next(&mut self) -> (r: Option<String>) {
        if self.count > 0 {
            self.count = self.count - 1;
            let r = self.iter.next();
            proof {
                let src = old(self).iter.remaining();
                if src.len() > 0 {
                    assert(old(self).remaining() == seq![src[0]] + self.remaining());
                }
                assert(self.remaining().len() == 0 || r is Some);
            }
            r
        } else {
            self.count = self.n - 1;
            let ghost src = self.iter.remaining();
            match self.iter.next() {
                None => {
                    return None;
                },
                Some(_) => {},
            }
            let r = self.iter.next();
            proof {
                if src.len() > 1 {
                    assert(self.iter.remaining() =~= src.subrange(2, src.len() as int));
                    assert(old(self).remaining() == seq![src[1]] + self.remaining());
                }
            }
            r
        }
    }
}

/// `lines` joined by newlines, with none after the last.
pub open spec fn joined(lines: Seq<Seq<char>>) -> Seq<char>
    decreases lines.len(),
{
    if lines.len() == 0 {
        Seq::empty()
    } else if lines.len() == 1 {
        lines[0]
    } else {
        joined(lines.drop_last()) + "\n"@ + lines.last()
    }
}

/// `lines`, each followed by a newline.
pub open spec fn terminated(lines: Seq<Seq<char>>) -> Seq<char>
    decreases lines.len(),
{
    if lines.len() == 0 {
        Seq::empty()
    } else {
        terminated(lines.drop_last()) + lines.last() + "\n"@
    }
}

/// All remaining lines of `iter`, joined by newlines with none after the last.
pub fn song_to_string<I: LineSource>(iter: I) -> (r: String)
    requires
        iter.inv(),
    ensures
        r@ == joined(iter.remaining()),
{
    let ghost all = iter.remaining();
    let mut it = iter;
    let mut out = String::new();
    let mut first = true;
    let ghost mut taken: Seq<Seq<char>> = Seq::empty();
    loop
        invariant
            it.inv(),
            all == taken + it.remaining(),
            out@ == joined(taken),
            first == (taken.len() == 0),
        ensures
            out@ == joined(all),
        decreases it.remaining().len(),
    {
        let ghost before = it.remaining();
        match it.next() {
            Some(line) => {
                if !first {
                    out.append("\n");
                }
                out.append(line.as_str());
                proof {
                    let t2 = taken.push(line@);
                    assert(t2.drop_last() =~= taken);
                    assert(all =~= t2 + it.remaining());
                    taken = t2;
                }
                first = false;
            },
            None => {
                proof {
                    assert(all =~= taken);
                }
                break;
            },
        }
    }
    out
}

/// All remaining lines of `iter`, each followed by a newline: the text that
/// is written to a file or sent over a connection.
pub fn song_to_text<I: LineSource>(iter: I) -> (r: String)
    requires
        iter.inv(),
    ensures
        r@ == terminated(iter.remaining()),
{
    let ghost all = iter.remaining();
    let mut it = iter;
    let mut out = String::new();
    let ghost mut taken: Seq<Seq<char>> = Seq::empty();
    loop
        invariant
            it.inv(),
            all == taken + it.remaining(),
            out@ == terminated(taken),
        ensures
            out@ == terminated(all),
        decreases it.remaining().len(),
    {
        match it.next() {
            Some(line) => {
                out.append(line.as_str());
                out.append("\n");
                proof {
                    let t2 = taken.push(line@);
                    assert(t2.drop_last() =~= taken);
                    assert(all =~= t2 + it.remaining());
                    taken = t2;
                }
            },
            None => {
                proof {
                    assert(all =~= taken);
                }
                break;
            },
        }
    }
    out
}

/// The lines received over a connection, each followed by a newline.
pub fn terminate_lines(lines: &Vec<String>) -> (r: String)
    ensures
        r@ == terminated(lines@.map_values(|l: String| l@)),
{
    let ghost views = lines@.map_values(|l: String| l@);
    let mut out = String::new();
    let mut i: usize = 0;
    while i < lines.len()
        invariant
            i <= lines@.len(),
            views == lines@.map_values(|l: String| l@),
            out@ == terminated(views.take(i as int)),
        decreases lines@.len() - i,
    {
        out.append(lines[i].as_str());
        out.append("\n");
        proof {
            assert(views.take(i + 1).drop_last() =~= views.take(i as int));
        }
        i = i + 1;
    }
    proof {
        assert(views.take(lines@.len() as int) =~= views);
    }
    out
}

/// Lines each followed by a newline read the same as the lines joined by
/// newlines with one more newline at the end.
pub proof fn lemma_terminated_is_joined_plus_newline(lines: Seq<Seq<char>>)
    requires
        lines.len() > 0,
    ensures
        terminated(lines) == joined(lines) + "\n"@,
    decreases lines.len(),
{
    let d = lines.drop_last();
    if lines.len() == 1 {
        assert(d =~= Seq::<Seq<char>>::empty());
        assert(terminated(d) == Seq::<char>::empty());
        assert(lines.last() == lines[0]);
        assert(terminated(lines) =~= lines[0] + "\n"@);
    } else {
        lemma_terminated_is_joined_plus_newline(d);
        assert(terminated(lines) =~= joined(d) + "\n"@ + lines.last() + "\n"@);
    }
}

} // verus!
