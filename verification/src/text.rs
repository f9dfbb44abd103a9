//! Text: decimal numbers, joined command lists, marks, and whitespace tokens.
use vstd::prelude::*;

verus! {

/// The character of a decimal digit.
pub open spec fn digit_char(d: int) -> char {
    if d == 0 {
        '0'
    } else if d == 1 {
        '1'
    } else if d == 2 {
        '2'
    } else if d == 3 {
        '3'
    } else if d == 4 {
        '4'
    } else if d == 5 {
        '5'
    } else if d == 6 {
        '6'
    } else if d == 7 {
        '7'
    } else if d == 8 {
        '8'
    } else {
        '9'
    }
}

/// The decimal digits of `n`, most significant first, without leading zeros.
pub open spec fn digits(n: nat) -> Seq<char>
    decreases n,
{
    if n < 10 {
        seq![digit_char(n as int)]
    } else {
        digits(n / 10).push(digit_char((n % 10) as int))
    }
}

/// The decimal representation of `i`, with a leading `-` when it is negative.
pub open spec fn decimal(i: int) -> Seq<char> {
    if i < 0 {
        seq!['-'] + digits((-i) as nat)
    } else {
        digits(i as nat)
    }
}

/// The concatenation of the strings of `s`, in order.
pub open spec fn join(s: Seq<Seq<char>>) -> Seq<char>
    decreases s.len(),
{
    if s.len() == 0 {
        Seq::empty()
    } else {
        join(s.drop_last()) + s.last()
    }
}

/// The models of a sequence of strings.
pub open spec fn strings(s: Seq<String>) -> Seq<Seq<char>> {
    s.map_values(|t: String| t@)
}

fn digit_str(d: u64) -> (s: &'static str)
    requires
        d < 10,
    ensures
        s@ == seq![digit_char(d as int)],
{
    proof {
        reveal_strlit("0");
        reveal_strlit("1");
        reveal_strlit("2");
        reveal_strlit("3");
        reveal_strlit("4");
        reveal_strlit("5");
        reveal_strlit("6");
        reveal_strlit("7");
        reveal_strlit("8");
        reveal_strlit("9");
    }
    if d == 0 {
        "0"
    } else if d == 1 {
        "1"
    } else if d == 2 {
        "2"
    } else if d == 3 {
        "3"
    } else if d == 4 {
        "4"
    } else if d == 5 {
        "5"
    } else if d == 6 {
        "6"
    } else if d == 7 {
        "7"
    } else if d == 8 {
        "8"
    } else {
        "9"
    }
}

fn push_digits(s: &mut String, n: u64)
    ensures
        final(s)@ == old(s)@ + digits(n as nat),
    decreases n,
{
    if n >= 10 {
        push_digits(s, n / 10);
    }
    s.append(digit_str(n % 10));
    proof {
        if n >= 10 {
            assert(old(s)@ + digits(n as nat) =~= old(s)@ + digits((n / 10) as nat) + seq![
                digit_char((n % 10) as int),
            ]);
        } else {
            assert(old(s)@ + digits(n as nat) =~= old(s)@ + seq![digit_char((n % 10) as int)]);
        }
    }
}

/// The decimal representation of `i`.
pub fn decimal_string(i: i64) -> (s: String)
    ensures
        s@ == decimal(i as int),
{
    let mut s = String::new();
    if i < 0 {
        proof {
            reveal_strlit("-");
        }
        s.append("-");
        let magnitude: u64 = (0i128 - (i as i128)) as u64;
        push_digits(&mut s, magnitude);
    } else {
        push_digits(&mut s, i as u64);
        proof {
            assert(s@ =~= decimal(i as int));
        }
    }
    s
}

/// The concatenation of `parts`, in order.
pub fn concat_all(parts: &Vec<String>) -> (s: String)
    ensures
        s@ == join(strings(parts@)),
{
    let mut s = String::new();
    let mut i: usize = 0;
    proof {
        assert(strings(parts@).take(0) =~= Seq::<Seq<char>>::empty());
    }
    while i < parts.len()
        invariant
            0 <= i <= parts@.len(),
            s@ == join(strings(parts@).take(i as int)),
        decreases parts@.len() - i,
    {
        s.append(parts[i].as_str());
        proof {
            let t = strings(parts@).take(i + 1);
            assert(t.drop_last() =~= strings(parts@).take(i as int));
            assert(t.last() == parts@[i as int]@);
        }
        i = i + 1;
    }
    proof {
        assert(strings(parts@).take(i as int) =~= strings(parts@));
    }
    s
}

/// Whether `marks` holds `mark`.
pub fn has_mark(marks: &Vec<String>, mark: &String) -> (found: bool)
    ensures
        found == strings(marks@).contains(mark@),
{
    let mut i: usize = 0;
    while i < marks.len()
        invariant
            0 <= i <= marks@.len(),
            forall|k: int| 0 <= k < i ==> (#[trigger] strings(marks@)[k]) != mark@,
        decreases marks@.len() - i,
    {
        if marks[i] == *mark {
            proof {
                assert(strings(marks@)[i as int] == mark@);
            }
            return true;
        }
        i = i + 1;
    }
    proof {
        if strings(marks@).contains(mark@) {
            let k = choose|k: int| 0 <= k < strings(marks@).len() && strings(marks@)[k] == mark@;
            assert(strings(marks@)[k] != mark@);
        }
    }
    false
}

/// Unicode's `White_Space` property.
pub open spec fn is_whitespace(c: char) -> bool {
    let u = c as u32;
    ||| 0x9 <= u <= 0xd
    ||| u == 0x20
    ||| u == 0x85
    ||| u == 0xa0
    ||| u == 0x1680
    ||| 0x2000 <= u <= 0x200a
    ||| u == 0x2028
    ||| u == 0x2029
    ||| u == 0x202f
    ||| u == 0x205f
    ||| u == 0x3000
}

/// Whether `c` is white space in the sense of Unicode's `White_Space` property.
pub fn char_is_whitespace(c: char) -> (r: bool)
    ensures
        r == is_whitespace(c),
{
    let u = c as u32;
    (0x9 <= u && u <= 0xd) || u == 0x20 || u == 0x85 || u == 0xa0 || u == 0x1680 || (0x2000 <= u
        && u <= 0x200a) || u == 0x2028 || u == 0x2029 || u == 0x202f || u == 0x205f || u == 0x3000
}

/// The length of the run of non-white-space characters at the start of `s`.
pub open spec fn word_len(s: Seq<char>) -> nat
    decreases s.len(),
{
    if s.len() == 0 || is_whitespace(s[0]) {
        0
    } else {
        1 + word_len(s.drop_first())
    }
}

/// The maximal runs of non-white-space characters of `s`, in order.
pub open spec fn words(s: Seq<char>) -> Seq<Seq<char>>
    decreases s.len(),
{
    if s.len() == 0 {
        Seq::empty()
    } else if is_whitespace(s[0]) {
        words(s.drop_first())
    } else {
        proof {
            lemma_word_len_bound(s);
        }
        seq![s.take(word_len(s) as int)] + words(s.skip(word_len(s) as int))
    }
}

pub proof fn lemma_word_len_bound(s: Seq<char>)
    ensures
        word_len(s) <= s.len(),
        s.len() > 0 && !is_whitespace(s[0]) ==> word_len(s) > 0,
        forall|k: int| 0 <= k < word_len(s) ==> !is_whitespace(#[trigger] s[k]),
        word_len(s) < s.len() ==> is_whitespace(s[word_len(s) as int]),
    decreases s.len(),
{
    if s.len() > 0 && !is_whitespace(s[0]) {
        lemma_word_len_bound(s.drop_first());
        assert forall|k: int| 0 <= k < word_len(s) implies !is_whitespace(#[trigger] s[k]) by {
            if k > 0 {
                assert(s[k] == s.drop_first()[k - 1]);
            }
        }
    }
}

/// The word length of `s` is the position of the first white space at or after
/// `start`, given that `s[start..end]` holds none and `end` is that position or
/// the end of `s`.
pub proof fn lemma_word_len_at(s: Seq<char>, end: int)
    requires
        0 <= end <= s.len(),
        forall|k: int| 0 <= k < end ==> !is_whitespace(#[trigger] s[k]),
        end == s.len() || is_whitespace(s[end]),
    ensures
        word_len(s) == end,
    decreases end,
{
    if end > 0 {
        assert(!is_whitespace(s[0]));
        assert forall|k: int| 0 <= k < end - 1 implies !is_whitespace(
            #[trigger] s.drop_first()[k],
        ) by {
            assert(s.drop_first()[k] == s[k + 1]);
        }
        if end < s.len() {
            assert(s.drop_first()[end - 1] == s[end]);
        }
        lemma_word_len_at(s.drop_first(), end - 1);
    }
}

/// The words of `text`: its maximal runs of non-white-space characters.
pub fn split_words(text: &str) -> (out: Vec<String>)
    ensures
        strings(out@) == words(text@),
{
    let n = text.unicode_len();
    let mut out: Vec<String> = Vec::new();
    let mut i: usize = 0;
    proof {
        assert(text@.skip(0) =~= text@);
        assert(strings(out@) =~= Seq::<Seq<char>>::empty());
        assert(strings(out@) + words(text@.skip(0)) =~= words(text@));
    }
    while i < n
        invariant
            n == text@.len(),
            0 <= i <= n,
            strings(out@) + words(text@.skip(i as int)) == words(text@),
        decreases n - i,
    {
        let c = text.get_char(i);
        if char_is_whitespace(c) {
            proof {
                let r = text@.skip(i as int);
                assert(r[0] == c);
                assert(r.drop_first() =~= text@.skip(i + 1));
            }
            i = i + 1;
        } else {
            let mut j: usize = i + 1;
            while j < n && !char_is_whitespace(text.get_char(j))
                invariant
                    n == text@.len(),
                    i < j <= n,
                    forall|k: int| i <= k < j ==> !is_whitespace(#[trigger] text@[k]),
                decreases n - j,
            {
                j = j + 1;
            }
            let word = text.substring_char(i, j);
            let w = String::from_str(word);
            proof {
                let r = text@.skip(i as int);
                assert forall|k: int| 0 <= k < j - i implies !is_whitespace(#[trigger] r[k]) by {
                    assert(r[k] == text@[i + k]);
                }
                if j < n {
                    assert(r[j - i] == text@[j as int]);
                }
                lemma_word_len_at(r, j - i);
                assert(r[0] == c);
                assert(r.take(j - i) =~= w@);
                assert(r.skip(j - i) =~= text@.skip(j as int));
                assert(strings(out@.push(w)) =~= strings(out@).push(w@));
                assert(strings(out@).push(w@) + words(text@.skip(j as int)) =~= strings(out@) + (
                seq![w@] + words(text@.skip(j as int))));
            }
            out.push(w);
            i = j;
        }
    }
    proof {
        assert(text@.skip(i as int) =~= Seq::<char>::empty());
        assert(strings(out@) + Seq::<Seq<char>>::empty() =~= strings(out@));
    }
    out
}

} // verus!
