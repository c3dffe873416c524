//! The tokenizer: a text's words are its longest runs of alphanumeric
//! characters, in lower case.
//!
//! Which characters are alphanumeric and what lower case is, the standard
//! library's Unicode tables say. Their answers have names here, and what is
//! built on them is stated over the names.

use vstd::prelude::*;

verus! {

/// What `char::is_alphanumeric` returns.
pub uninterp spec fn is_alphanumeric_char(c: char) -> bool;

/// What `str::to_lowercase` returns.
pub uninterp spec fn lowercase_of(s: Seq<char>) -> Seq<char>;

/// `char::is_alphanumeric`: its answer is fixed by the character alone. Which
/// characters it holds of is not stated.
pub assume_specification[ char::is_alphanumeric ](c: char) -> (r: bool)
    ensures
        r == is_alphanumeric_char(c),
;

/// `str::to_lowercase`: its result is fixed by the characters of the string
/// alone. What lower case is, is not stated.
pub assume_specification[ str::to_lowercase ](s: &str) -> (r: String)
    ensures
        r@ == lowercase_of(s@),
;

/// `String::push`: it puts the character behind those that were there.
pub assume_specification[ String::push ](s: &mut String, c: char)
    ensures
        final(s)@ == old(s)@.push(c),
;

/// For each character, whether it belongs to a word.
pub open spec fn word_flags(text: Seq<char>) -> Seq<bool> {
    text.map_values(|c: char| is_alphanumeric_char(c))
}

/// `done` with the word `current` behind it, unless that is empty.
pub open spec fn with_word(done: Seq<Seq<char>>, current: Seq<char>) -> Seq<Seq<char>> {
    if current.len() > 0 {
        done.push(current)
    } else {
        done
    }
}

/// The words that end before place `n`, and the word that goes on there.
pub open spec fn words_before(text: Seq<char>, flags: Seq<bool>, n: nat) -> (
    Seq<Seq<char>>,
    Seq<char>,
)
    decreases n,
{
    if n == 0 {
        (Seq::empty(), Seq::empty())
    } else {
        let (done, current) = words_before(text, flags, (n - 1) as nat);
        if flags[n - 1] {
            (done, current.push(text[n - 1]))
        } else {
            (with_word(done, current), Seq::empty())
        }
    }
}

/// The longest runs of flagged characters, from front to back.
pub open spec fn words(text: Seq<char>, flags: Seq<bool>) -> Seq<Seq<char>> {
    let (done, current) = words_before(text, flags, text.len());
    with_word(done, current)
}

/// The tokens of a text.
pub open spec fn tokens(text: Seq<char>) -> Seq<Seq<char>> {
    words(text, word_flags(text)).map_values(|w: Seq<char>| lowercase_of(w))
}

pub open spec fn strings_view(strings: Seq<String>) -> Seq<Seq<char>> {
    strings.map_values(|s: String| s@)
}

/// Words one behind the other.
pub open spec fn joined(list: Seq<Seq<char>>) -> Seq<char>
    decreases list.len(),
{
    if list.len() == 0 {
        Seq::empty()
    } else {
        joined(list.drop_last()) + list.last()
    }
}

/// The flagged characters among the first `n`.
pub open spec fn flagged(text: Seq<char>, flags: Seq<bool>, n: nat) -> Seq<char>
    decreases n,
{
    if n == 0 {
        Seq::empty()
    } else if flags[n - 1] {
        flagged(text, flags, (n - 1) as nat).push(text[n - 1])
    } else {
        flagged(text, flags, (n - 1) as nat)
    }
}

proof fn lemma_words_before(text: Seq<char>, flags: Seq<bool>, n: nat)
    ensures
        ({
            let (done, current) = words_before(text, flags, n);
            &&& joined(done) + current == flagged(text, flags, n)
            &&& forall|i: int| 0 <= i < done.len() ==> (#[trigger] done[i]).len() > 0
            &&& 2 * done.len() + current.len() <= n
            &&& n > 0 && !flags[n - 1] ==> current.len() == 0
        }),
    decreases n,
{
    if n > 0 {
        lemma_words_before(text, flags, (n - 1) as nat);
        let (done, current) = words_before(text, flags, (n - 1) as nat);
        if flags[n - 1] {
            assert(joined(done) + current.push(text[n - 1]) =~= (joined(done) + current).push(
                text[n - 1],
            ));
        } else if current.len() > 0 {
            assert(done.push(current).drop_last() =~= done);
            assert(joined(done.push(current)) + Seq::<char>::empty() =~= joined(done) + current);
        } else {
            assert(joined(done) + Seq::<char>::empty() =~= joined(done) + current);
        }
    } else {
        assert(joined(Seq::empty()) + Seq::<char>::empty() =~= flagged(text, flags, n));
    }
}

/// Splitting a text into words drops the characters between them and nothing
/// else, and gives no empty word.
pub proof fn law_words_keep_every_letter(text: Seq<char>, flags: Seq<bool>)
    ensures
        joined(words(text, flags)) == flagged(text, flags, text.len()),
        forall|i: int| 0 <= i < words(text, flags).len() ==> (#[trigger] words(text, flags)[i]).len()
            > 0,
{
    lemma_words_before(text, flags, text.len());
    let (done, current) = words_before(text, flags, text.len());
    if current.len() > 0 {
        assert(done.push(current).drop_last() =~= done);
    } else {
        assert(joined(done) + current =~= joined(done));
    }
}

/// Whether the flags from `start` up to `end` are a longest run of set ones.
pub open spec fn is_run(flags: Seq<bool>, start: int, end: int) -> bool {
    &&& 0 <= start < end <= flags.len()
    &&& forall|i: int| start <= i < end ==> #[trigger] flags[i]
    &&& start > 0 ==> !flags[start - 1]
    &&& end < flags.len() ==> !flags[end]
}

/// Whether one of the words of `list`, which begin at `starts`, covers place `i`.
pub open spec fn covered(starts: Seq<int>, list: Seq<Seq<char>>, i: int) -> bool {
    exists|w: int|
        0 <= w < starts.len() && (#[trigger] starts[w]) <= i && i < starts[w] + list[w].len()
}

/// Where the words that end before place `n` stand, and where the one that goes
/// on there begins.
proof fn lemma_words_are_runs(text: Seq<char>, flags: Seq<bool>, n: nat) -> (r: (
    Seq<int>,
    int,
))
    requires
        text.len() == flags.len(),
        n <= text.len(),
    ensures
        ({
            let (done, current) = words_before(text, flags, n);
            let (starts, start) = r;
            &&& starts.len() == done.len()
            &&& forall|w: int|
                0 <= w < done.len() ==> {
                    &&& is_run(flags, #[trigger] starts[w], starts[w] + done[w].len())
                    &&& done[w] == text.subrange(starts[w], starts[w] + done[w].len())
                    &&& starts[w] + done[w].len() < n
                }
            &&& start == n - current.len()
            &&& 0 <= start
            &&& current == text.subrange(start, n as int)
            &&& forall|i: int| start <= i < n ==> #[trigger] flags[i]
            &&& start > 0 ==> !flags[start - 1]
            &&& forall|v: int, w: int|
                0 <= v < w < starts.len() ==> (#[trigger] starts[v]) < (#[trigger] starts[w])
            &&& forall|w: int| 0 <= w < starts.len() ==> (#[trigger] starts[w]) < start
            &&& forall|i: int| 0 <= i < start && #[trigger] flags[i] ==> covered(starts, done, i)
        }),
    decreases n,
{
    if n == 0 {
        assert(Seq::<char>::empty() =~= text.subrange(0, 0));
        (Seq::empty(), 0)
    } else {
        let (starts, start) = lemma_words_are_runs(text, flags, (n - 1) as nat);
        let (done, current) = words_before(text, flags, (n - 1) as nat);
        if flags[n - 1] {
            assert(current.push(text[n - 1]) =~= text.subrange(start, n as int));
            (starts, start)
        } else if current.len() > 0 {
            let all = starts.push(start);
            let now = done.push(current);
            assert(is_run(flags, start, start + current.len()));
            assert forall|w: int| 0 <= w < now.len() implies {
                &&& is_run(flags, #[trigger] all[w], all[w] + now[w].len())
                &&& now[w] == text.subrange(all[w], all[w] + now[w].len())
                &&& all[w] + now[w].len() < n
            } by {
                if w < done.len() {
                    assert(all[w] == starts[w]);
                    assert(now[w] == done[w]);
                }
            }
            assert forall|i: int| 0 <= i < n && #[trigger] flags[i] implies covered(all, now, i) by {
                if i < start {
                    let w = choose|w: int|
                        0 <= w < starts.len() && (#[trigger] starts[w]) <= i && i < starts[w]
                            + done[w].len();
                    assert(all[w] <= i && i < all[w] + now[w].len());
                } else {
                    let w = starts.len() as int;
                    assert(all[w] <= i && i < all[w] + now[w].len());
                }
            }
            assert(Seq::<char>::empty() =~= text.subrange(n as int, n as int));
            (all, n as int)
        } else {
            assert(Seq::<char>::empty() =~= text.subrange(n as int, n as int));
            (starts, n as int)
        }
    }
}

/// Each word is a longest run of flagged characters, and the words stand in the
/// order of the text.
pub proof fn law_words_are_longest_runs(text: Seq<char>, flags: Seq<bool>) -> (starts: Seq<int>)
    requires
        text.len() == flags.len(),
    ensures
        starts.len() == words(text, flags).len(),
        forall|w: int|
            0 <= w < starts.len() ==> is_run(
                flags,
                #[trigger] starts[w],
                starts[w] + words(text, flags)[w].len(),
            ) && words(text, flags)[w] == text.subrange(
                starts[w],
                starts[w] + words(text, flags)[w].len(),
            ),
        forall|v: int, w: int|
            0 <= v < w < starts.len() ==> (#[trigger] starts[v]) < (#[trigger] starts[w]),
        forall|i: int|
            0 <= i < flags.len() && #[trigger] flags[i] ==> covered(starts, words(text, flags), i),
{
    let n = text.len();
    let (starts, start) = lemma_words_are_runs(text, flags, n);
    let (done, current) = words_before(text, flags, n);
    if current.len() > 0 {
        let all = starts.push(start);
        assert(is_run(flags, start, start + current.len()));
        assert forall|w: int| 0 <= w < all.len() implies is_run(
            flags,
            #[trigger] all[w],
            all[w] + words(text, flags)[w].len(),
        ) && words(text, flags)[w] == text.subrange(
            all[w],
            all[w] + words(text, flags)[w].len(),
        ) by {
            if w < done.len() {
                assert(all[w] == starts[w]);
            }
        }
        let list = words(text, flags);
        assert forall|i: int| 0 <= i < flags.len() && #[trigger] flags[i] implies covered(
            all,
            list,
            i,
        ) by {
            if i < start {
                let w = choose|w: int|
                    0 <= w < starts.len() && (#[trigger] starts[w]) <= i && i < starts[w]
                        + done[w].len();
                assert(all[w] <= i && i < all[w] + list[w].len());
            } else {
                let w = starts.len() as int;
                assert(all[w] <= i && i < all[w] + list[w].len());
            }
        }
        all
    } else {
        starts
    }
}

/// Between two words stands at least one character.
pub proof fn lemma_word_count(text: Seq<char>, flags: Seq<bool>)
    ensures
        2 * words(text, flags).len() <= text.len() + 1,
{
    lemma_words_before(text, flags, text.len());
}

/// A text has fewer tokens than characters.
pub proof fn lemma_token_count(text: Seq<char>)
    ensures
        2 * tokens(text).len() <= text.len() + 1,
{
    lemma_word_count(text, word_flags(text));
}

/// The tokens of a text are its longest runs of letters and digits in lower
/// case, each of them and nothing else, from front to back: token `w` stands from
/// `starts[w]` up to `ends[w]`, only letters and digits stand there and none
/// right before or behind, and every letter and digit of the text is in a token.
pub proof fn law_tokens_are_the_words_of_the_text(text: Seq<char>, list: Seq<String>) -> (r: (
    Seq<int>,
    Seq<int>,
))
    requires
        strings_view(list) == tokens(text),
    ensures
        ({
            let (starts, ends) = r;
            &&& starts.len() == list.len()
            &&& ends.len() == list.len()
            &&& forall|w: int|
                0 <= w < list.len() ==> {
                    &&& 0 <= #[trigger] starts[w] < ends[w] <= text.len()
                    &&& list[w]@ == lowercase_of(text.subrange(starts[w], ends[w]))
                    &&& starts[w] > 0 ==> !is_alphanumeric_char(text[starts[w] - 1])
                    &&& ends[w] < text.len() ==> !is_alphanumeric_char(text[ends[w]])
                }
            &&& forall|w: int, i: int|
                0 <= w < list.len() && #[trigger] starts[w] <= i < ends[w] ==> is_alphanumeric_char(
                    #[trigger] text[i],
                )
            &&& forall|v: int, w: int|
                0 <= v < w < list.len() ==> (#[trigger] ends[v]) <= (#[trigger] starts[w])
            &&& forall|i: int|
                0 <= i < text.len() && is_alphanumeric_char(#[trigger] text[i]) ==> exists|w: int|
                    0 <= w < list.len() && #[trigger] starts[w] <= i < ends[w]
        }),
{
    let flags = word_flags(text);
    let parts = words(text, flags);
    let starts = law_words_are_longest_runs(text, flags);
    let ends = Seq::new(starts.len(), |w: int| starts[w] + parts[w].len());
    assert(list.len() == strings_view(list).len());
    assert forall|w: int| 0 <= w < list.len() implies {
        &&& 0 <= #[trigger] starts[w] < ends[w] <= text.len()
        &&& list[w]@ == lowercase_of(text.subrange(starts[w], ends[w]))
        &&& starts[w] > 0 ==> !is_alphanumeric_char(text[starts[w] - 1])
        &&& ends[w] < text.len() ==> !is_alphanumeric_char(text[ends[w]])
    } by {
        assert(strings_view(list)[w] == list[w]@);
        assert(is_run(flags, starts[w], ends[w]));
        if starts[w] > 0 {
            assert(flags[starts[w] - 1] == is_alphanumeric_char(text[starts[w] - 1]));
        }
        if ends[w] < text.len() {
            assert(flags[ends[w]] == is_alphanumeric_char(text[ends[w]]));
        }
    }
    assert forall|w: int, i: int|
        0 <= w < list.len() && #[trigger] starts[w] <= i < ends[w] implies is_alphanumeric_char(
        #[trigger] text[i],
    ) by {
        assert(is_run(flags, starts[w], ends[w]));
        assert(flags[i]);
    }
    assert forall|v: int, w: int| 0 <= v < w < list.len() implies (#[trigger] ends[v]) <= (
    #[trigger] starts[w]) by {
        assert(is_run(flags, starts[v], ends[v]));
        assert(is_run(flags, starts[w], ends[w]));
        assert(starts[v] < starts[w]);
        if starts[w] < ends[v] {
            assert(flags[starts[w] - 1]);
        }
    }
    assert forall|i: int| 0 <= i < text.len() && is_alphanumeric_char(#[trigger] text[i]) implies exists|
        w: int,
    |
        0 <= w < list.len() && #[trigger] starts[w] <= i < ends[w] by {
        assert(flags[i]);
        let w = choose|w: int|
            0 <= w < starts.len() && (#[trigger] starts[w]) <= i && i < starts[w] + parts[w].len();
        assert(starts[w] <= i < ends[w]);
    }
    (starts, ends)
}

/// The longest runs of flagged characters. There is one flag for each
/// character.
pub fn split_words(text: &Vec<char>, flags: &Vec<bool>) -> (r: Vec<String>)
    requires
        text@.len() == flags@.len(),
    ensures
        strings_view(r@) == words(text@, flags@),
{
    let mut done: Vec<String> = Vec::new();
    let mut current: String = String::new();
    let mut empty: bool = true;
    let mut n: usize = 0;
    assert(strings_view(done@) =~= Seq::<Seq<char>>::empty());
    while n < text.len()
        invariant
            n <= text@.len(),
            text@.len() == flags@.len(),
            (strings_view(done@), current@) == words_before(text@, flags@, n as nat),
            empty == (current@.len() == 0),
        decreases text@.len() - n,
    {
        if flags[n] {
            current.push(text[n]);
            empty = false;
        } else if !empty {
            let ghost before = done@;
            let ghost word = current@;
            done.push(current);
            assert(strings_view(done@) =~= strings_view(before).push(word));
            current = String::new();
            empty = true;
        } else {
            assert(current@ =~= Seq::<char>::empty());
        }
        n = n + 1;
    }
    if !empty {
        let ghost before = done@;
        let ghost word = current@;
        done.push(current);
        assert(strings_view(done@) =~= strings_view(before).push(word));
    }
    done
}

/// The characters of a text.
fn chars_of(text: &str) -> (r: Vec<char>)
    ensures
        r@ == text@,
{
    let mut out: Vec<char> = Vec::new();
    for c in it: text.chars()
        invariant
            it.seq() == text@,
            out@ == text@.take(it.index() as int),
    {
        out.push(c);
        assert(out@ =~= text@.take(it.index() + 1));
    }
    assert(text@.take(text@.len() as int) =~= text@);
    out
}

/// The tokens of a text.
pub fn tokenize(text: &str) -> (r: Vec<String>)
    ensures
        strings_view(r@) == tokens(text@),
        2 * r@.len() <= text@.len() + 1,
{
    let chars: Vec<char> = chars_of(text);
    let mut flags: Vec<bool> = Vec::new();
    let mut i: usize = 0;
    while i < chars.len()
        invariant
            i <= chars@.len(),
            flags@ == word_flags(chars@).take(i as int),
        decreases chars@.len() - i,
    {
        flags.push(chars[i].is_alphanumeric());
        assert(flags@ =~= word_flags(chars@).take(i + 1));
        i = i + 1;
    }
    assert(flags@ =~= word_flags(text@));
    let split: Vec<String> = split_words(&chars, &flags);
    let ghost parts = words(text@, flags@);
    let mut out: Vec<String> = Vec::new();
    let mut w: usize = 0;
    proof {
        lemma_word_count(text@, flags@);
    }
    while w < split.len()
        invariant
            w <= split@.len(),
            strings_view(split@) == parts,
            parts == words(text@, word_flags(text@)),
            strings_view(out@) == tokens(text@).take(w as int),
        decreases split@.len() - w,
    {
        let ghost before = out@;
        let lower: String = split[w].as_str().to_lowercase();
        out.push(lower);
        proof {
            assert(split@[w as int]@ == parts[w as int]);
            assert(strings_view(out@) =~= strings_view(before).push(lower@));
            assert(strings_view(out@) =~= tokens(text@).take(w + 1));
        }
        w = w + 1;
    }
    assert(strings_view(out@) =~= tokens(text@));
    out
}

} // verus!
