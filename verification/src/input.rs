use vstd::prelude::*;

use crate::text::{chars_of, push_char};

verus! {

/// Whether a character separates fields of an input record: the
/// characters with the Unicode white-space property.
pub open spec fn is_space(c: char) -> bool {
    let u = c as u32;
    ||| 0x09 <= u <= 0x0D
    ||| u == 0x20
    ||| u == 0x85
    ||| u == 0xA0
    ||| u == 0x1680
    ||| 0x2000 <= u <= 0x200A
    ||| u == 0x2028
    ||| u == 0x2029
    ||| u == 0x202F
    ||| u == 0x205F
    ||| u == 0x3000
}

/// The maximal runs of non-separator characters of `s`, in order, with
/// `cur` the partial run already read.
pub open spec fn split_ws(s: Seq<char>, cur: Seq<char>) -> Seq<Seq<char>>
    decreases s.len(),
{
    if s.len() == 0 {
        if cur.len() == 0 {
            Seq::empty()
        } else {
            seq![cur]
        }
    } else if is_space(s[0]) {
        if cur.len() == 0 {
            split_ws(s.drop_first(), cur)
        } else {
            seq![cur] + split_ws(s.drop_first(), Seq::empty())
        }
    } else {
        split_ws(s.drop_first(), cur.push(s[0]))
    }
}

/// The whitespace-separated fields of a line.
pub open spec fn tokens_of(s: Seq<char>) -> Seq<Seq<char>> {
    split_ws(s, Seq::empty())
}

/// Whether `c` separates fields of an input record.
pub fn is_space_char(c: char) -> (r: bool)
    ensures
        r == is_space(c),
{
    let u = c as u32;
    (0x09 <= u && u <= 0x0D) || u == 0x20 || u == 0x85 || u == 0xA0 || u == 0x1680 || (0x2000 <= u
        && u <= 0x200A) || u == 0x2028 || u == 0x2029 || u == 0x202F || u == 0x205F || u == 0x3000
}

/// Splits one input line into its whitespace-separated fields. An empty
/// or all-whitespace line yields `None`, which ends the caller's read
/// loop; any other line yields its fields in order.
pub fn read_vec(line: &str) -> (r: Option<Vec<String>>)
    ensures
        match r {
            Some(v) => tokens_of(line@).len() > 0 && v.deep_view() == tokens_of(line@),
            None => tokens_of(line@).len() == 0,
        },
{
    let cs = chars_of(line);
    let mut toks: Vec<String> = Vec::new();
    let mut cur: String = String::new();
    let mut cur_empty: bool = true;
    let mut k: usize = 0;
    proof {
        assert(cs@.skip(0) =~= cs@);
        assert(toks.deep_view() =~= Seq::<Seq<char>>::empty());
        assert(Seq::<Seq<char>>::empty() + split_ws(cs@, Seq::<char>::empty()) =~= split_ws(
            cs@,
            Seq::<char>::empty(),
        ));
    }
    while k < cs.len()
        invariant
            k <= cs@.len(),
            cs@ == line@,
            cur_empty == (cur@.len() == 0),
            tokens_of(line@) == toks.deep_view() + split_ws(cs@.skip(k as int), cur@),
        decreases cs@.len() - k,
    {
        let ch = cs[k];
        let ghost rest = cs@.skip(k as int);
        proof {
            assert(rest[0] == cs@[k as int]);
            assert(rest.drop_first() =~= cs@.skip(k as int + 1));
        }
        if is_space_char(ch) {
            if !cur_empty {
                let ghost old_toks = toks.deep_view();
                let ghost old_cur = cur@;
                toks.push(cur);
                cur = String::new();
                cur_empty = true;
                proof {
                    assert(toks.deep_view() =~= old_toks.push(old_cur));
                    assert(old_toks.push(old_cur) =~= old_toks + seq![old_cur]);
                    assert((old_toks + seq![old_cur]) + split_ws(rest.drop_first(), Seq::empty())
                        =~= old_toks + (seq![old_cur] + split_ws(rest.drop_first(), Seq::empty())));
                }
            }
        } else {
            push_char(&mut cur, ch);
            cur_empty = false;
        }
        k += 1;
    }
    proof {
        assert(cs@.skip(cs@.len() as int) =~= Seq::<char>::empty());
    }
    if !cur_empty {
        let ghost old_toks = toks.deep_view();
        let ghost old_cur = cur@;
        toks.push(cur);
        proof {
            assert(toks.deep_view() =~= old_toks.push(old_cur));
            assert(old_toks.push(old_cur) =~= old_toks + seq![old_cur]);
        }
    }
    if toks.len() == 0 {
        proof {
            assert(toks.deep_view() =~= Seq::<Seq<char>>::empty());
        }
        None
    } else {
        Some(toks)
    }
}

} // verus!
