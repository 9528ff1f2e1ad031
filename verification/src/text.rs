//! Small verified helpers on strings: rendering a number in decimal,
//! joining words with spaces, and splitting a comma-separated list.
use vstd::prelude::*;

verus! {

use vstd::string::StrSliceExecFns;
use vstd::string::StringExecFns;

/// The character for one decimal digit.
pub open spec fn digit_char(d: nat) -> char {
    if d == 0 {
        '0'
    } else if d == 1 {
        '1'
    } else if d == 2 {
        '2'
    } else if d == 3 {
        '3'
    } else if d == 4 {
        '4'
    } else if d == 5 {
        '5'
    } else if d == 6 {
        '6'
    } else if d == 7 {
        '7'
    } else if d == 8 {
        '8'
    } else {
        '9'
    }
}

/// The decimal rendering of `n`, most significant digit first.
pub open spec fn dec_rep(n: nat) -> Seq<char>
    decreases n,
{
    if n < 10 {
        seq![digit_char(n)]
    } else {
        dec_rep(n / 10) + seq![digit_char(n % 10)]
    }
}

fn digit_str(d: u64) -> (r: &'static str)
    requires
        d < 10,
    ensures
        r@ == seq![digit_char(d as nat)],
{
    if d == 0 {
        proof {
            reveal_strlit("0");
            assert("0"@ =~= seq![digit_char(0)]);
        }
        "0"
    } else if d == 1 {
        proof {
            reveal_strlit("1");
            assert("1"@ =~= seq![digit_char(1)]);
        }
        "1"
    } else if d == 2 {
        proof {
            reveal_strlit("2");
            assert("2"@ =~= seq![digit_char(2)]);
        }
        "2"
    } else if d == 3 {
        proof {
            reveal_strlit("3");
            assert("3"@ =~= seq![digit_char(3)]);
        }
        "3"
    } else if d == 4 {
        proof {
            reveal_strlit("4");
            assert("4"@ =~= seq![digit_char(4)]);
        }
        "4"
    } else if d == 5 {
        proof {
            reveal_strlit("5");
            assert("5"@ =~= seq![digit_char(5)]);
        }
        "5"
    } else if d == 6 {
        proof {
            reveal_strlit("6");
            assert("6"@ =~= seq![digit_char(6)]);
        }
        "6"
    } else if d == 7 {
        proof {
            reveal_strlit("7");
            assert("7"@ =~= seq![digit_char(7)]);
        }
        "7"
    } else if d == 8 {
        proof {
            reveal_strlit("8");
            assert("8"@ =~= seq![digit_char(8)]);
        }
        "8"
    } else {
        proof {
            reveal_strlit("9");
            assert("9"@ =~= seq![digit_char(9)]);
        }
        "9"
    }
}

/// Renders `n` in decimal.
pub fn u64_to_dec(n: u64) -> (r: String)
    ensures
        r@ == dec_rep(n as nat),
    decreases n,
{
    if n < 10 {
        digit_str(n).to_owned()
    } else {
        let mut s = u64_to_dec(n / 10);
        s.append(digit_str(n % 10));
        s
    }
}

/// The words of `items` joined by single spaces.
pub open spec fn joined_spaces(items: Seq<Seq<char>>) -> Seq<char>
    decreases items.len(),
{
    if items.len() == 0 {
        Seq::empty()
    } else if items.len() == 1 {
        items[0]
    } else {
        joined_spaces(items.drop_last()) + seq![' '] + items.last()
    }
}

/// Joins `items` with single spaces.
pub fn join_spaces(items: &Vec<String>) -> (r: String)
    ensures
        r@ == joined_spaces(items.deep_view()),
{
    let ghost all = items.deep_view();
    let mut r = String::new();
    let mut i: usize = 0;
    while i < items.len()
        invariant
            i <= items.len(),
            all == items.deep_view(),
            all.len() == items.len(),
            r@ == joined_spaces(all.take(i as int)),
        decreases items.len() - i,
    {
        if i > 0 {
            r.append(" ");
            proof {
                reveal_strlit(" ");
                assert(" "@ =~= seq![' ']);
            }
        }
        r.append(items[i].as_str());
        proof {
            assert(all.take(i + 1).drop_last() =~= all.take(i as int));
            assert(all.take(i + 1).last() == all[i as int]);
            if i == 0 {
                assert(r@ =~= joined_spaces(all.take(i + 1)));
            }
        }
        i = i + 1;
    }
    proof {
        assert(all.take(items.len() as int) =~= all);
    }
    r
}

/// The segments of `s` between commas; a string without commas is one
/// segment, and leading, trailing or doubled commas give empty segments.
pub open spec fn split_commas(s: Seq<char>) -> Seq<Seq<char>>
    decreases s.len(),
{
    if s.len() == 0 {
        seq![Seq::<char>::empty()]
    } else if s[0] == ',' {
        seq![Seq::<char>::empty()] + split_commas(s.skip(1))
    } else {
        let rest = split_commas(s.skip(1));
        seq![seq![s[0]] + rest[0]] + rest.skip(1)
    }
}

pub proof fn lemma_split_commas_len(s: Seq<char>)
    ensures
        split_commas(s).len() >= 1,
    decreases s.len(),
{
    if s.len() != 0 {
        lemma_split_commas_len(s.skip(1));
    }
}

/// A comma-free run `[i, j)` that ends at a comma or at the end of the
/// string is exactly the next segment.
proof fn lemma_split_segment(s: Seq<char>, i: int, j: int)
    requires
        0 <= i <= j <= s.len(),
        forall|t: int| i <= t < j ==> s[t] != ',',
        j == s.len() || s[j] == ',',
    ensures
        j < s.len() ==> split_commas(s.skip(i)) == seq![s.subrange(i, j)] + split_commas(
            s.skip(j + 1),
        ),
        j == s.len() ==> split_commas(s.skip(i)) == seq![s.subrange(i, j)],
    decreases j - i,
{
    if i == j {
        if j == s.len() {
            assert(s.skip(i).len() == 0);
            assert(s.subrange(i, j) =~= Seq::<char>::empty());
            assert(split_commas(s.skip(i)) =~= seq![s.subrange(i, j)]);
        } else {
            assert(s.skip(i)[0] == ',');
            assert(s.skip(i).skip(1) =~= s.skip(j + 1));
            assert(s.subrange(i, j) =~= Seq::<char>::empty());
            assert(split_commas(s.skip(i)) =~= seq![s.subrange(i, j)] + split_commas(
                s.skip(j + 1),
            ));
        }
    } else {
        lemma_split_segment(s, i + 1, j);
        assert(s[i] != ',');
        assert(s.skip(i)[0] == s[i]);
        assert(s.skip(i).skip(1) =~= s.skip(i + 1));
        let rest = split_commas(s.skip(i + 1));
        assert(split_commas(s.skip(i)) == seq![seq![s[i]] + rest[0]] + rest.skip(1));
        lemma_split_commas_len(s.skip(i + 1));
        if j < s.len() {
            assert(rest == seq![s.subrange(i + 1, j)] + split_commas(s.skip(j + 1)));
            assert(seq![s[i]] + rest[0] =~= s.subrange(i, j));
            assert(rest.skip(1) =~= split_commas(s.skip(j + 1)));
            assert(split_commas(s.skip(i)) =~= seq![s.subrange(i, j)] + split_commas(
                s.skip(j + 1),
            ));
        } else {
            assert(rest == seq![s.subrange(i + 1, j)]);
            assert(rest.len() == 1);
            assert(seq![s[i]] + rest[0] =~= s.subrange(i, j));
            assert(rest.skip(1) =~= Seq::<Seq<char>>::empty());
            assert(split_commas(s.skip(i)) =~~= seq![s.subrange(i, j)]);
        }
    }
}

/// Splits `s` at every comma.
pub fn split_on_commas(s: &str) -> (r: Vec<String>)
    ensures
        r.deep_view() == split_commas(s@),
        r@.len() >= 1,
{
    let n = s.unicode_len();
    let mut out: Vec<String> = Vec::new();
    let mut seg_start: usize = 0;
    let mut i: usize = 0;
    proof {
        assert(s@.skip(0) =~= s@);
        assert(out.deep_view() =~= Seq::<Seq<char>>::empty());
        assert(out.deep_view() + split_commas(s@) =~= split_commas(s@));
    }
    while i < n
        invariant
            n == s@.len(),
            seg_start <= i <= n,
            forall|t: int| seg_start <= t < i ==> s@[t] != ',',
            out.deep_view() + split_commas(s@.skip(seg_start as int)) == split_commas(s@),
        decreases n - i,
    {
        let c = s.get_char(i);
        if c == ',' {
            let seg = s.substring_char(seg_start, i).to_owned();
            proof {
                lemma_split_segment(s@, seg_start as int, i as int);
                assert((out.deep_view().push(seg@)) + split_commas(s@.skip(i + 1))
                    =~= out.deep_view() + split_commas(s@.skip(seg_start as int)));
            }
            out.push(seg);
            seg_start = i + 1;
        }
        i = i + 1;
    }
    let seg = s.substring_char(seg_start, n).to_owned();
    proof {
        lemma_split_segment(s@, seg_start as int, n as int);
        assert(out.deep_view().push(seg@) =~= out.deep_view() + split_commas(
            s@.skip(seg_start as int),
        ));
    }
    out.push(seg);
    proof {
        assert(out.deep_view() =~= split_commas(s@));
    }
    out
}

/// Clones a list of strings, keeping every element equal.
pub fn clone_strings(v: &Vec<String>) -> (r: Vec<String>)
    ensures
        r@ == v@,
{
    let mut r: Vec<String> = Vec::new();
    let mut i: usize = 0;
    while i < v.len()
        invariant
            i <= v.len(),
            r@ == v@.take(i as int),
        decreases v.len() - i,
    {
        r.push(v[i].clone());
        proof {
            assert(v@.take(i + 1) =~= v@.take(i as int).push(v@[i as int]));
        }
        i = i + 1;
    }
    proof {
        assert(v@.take(v@.len() as int) =~= v@);
    }
    r
}

/// Clones a list of key-value pairs, keeping every entry equal.
pub fn clone_pairs(v: &Vec<(String, String)>) -> (r: Vec<(String, String)>)
    ensures
        r@ == v@,
{
    let mut r: Vec<(String, String)> = Vec::new();
    let mut i: usize = 0;
    while i < v.len()
        invariant
            i <= v.len(),
            r@ == v@.take(i as int),
        decreases v.len() - i,
    {
        let p = &v[i];
        r.push((p.0.clone(), p.1.clone()));
        proof {
            assert(v@.take(i + 1) =~= v@.take(i as int).push(v@[i as int]));
        }
        i = i + 1;
    }
    proof {
        assert(v@.take(v@.len() as int) =~= v@);
    }
    r
}

} // verus!
