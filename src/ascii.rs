use vstd::prelude::*;
use vstd::std_specs::iter::IteratorSpec;

verus! {

broadcast use vstd::string::group_string_axioms;

/// The characters of `s`, in order.
pub fn chars_of(s: &str) -> (v: Vec<char>)
    ensures
        v@ == s@,
{
    let mut v: Vec<char> = Vec::new();
    let mut it = s.chars();
    let ghost n = s@.len();
    proof {
        vstd::string::axiom_spec_iter(s);
    }
    loop
        invariant
            n == s@.len(),
            v@.len() <= n,
            it.remaining() == s@.subrange(v@.len() as int, n as int),
            v@ == s@.subrange(0, v@.len() as int),
            it.obeys_prophetic_iter_laws(),
        ensures
            v@ == s@,
        decreases n - v@.len(),
    {
        match it.next() {
            Some(c) => {
                v.push(c);
            },
            None => {
                assert(v@ =~= s@);
                break;
            },
        }
    }
    v
}

/// Unicode `White_Space`, the separator of columns.
pub open spec fn is_space(c: char) -> bool {
    let x = c as u32;
    ||| 0x09 <= x <= 0x0d
    ||| x == 0x20
    ||| x == 0x85
    ||| x == 0xa0
    ||| x == 0x1680
    ||| 0x2000 <= x <= 0x200a
    ||| x == 0x2028
    ||| x == 0x2029
    ||| x == 0x202f
    ||| x == 0x205f
    ||| x == 0x3000
}

/// The lines of `s`: the pieces between line breaks, the last one possibly empty.
pub open spec fn lines(s: Seq<char>) -> Seq<Seq<char>>
    decreases s.len(),
{
    if s.len() == 0 {
        seq![Seq::empty()]
    } else {
        let prev = lines(s.drop_last());
        if s.last() == '\n' {
            prev.push(Seq::empty())
        } else {
            prev.update(prev.len() - 1, prev.last().push(s.last()))
        }
    }
}

/// The columns of a line: its maximal runs of non-space characters.
pub open spec fn words(l: Seq<char>) -> Seq<Seq<char>>
    decreases l.len(),
{
    if l.len() == 0 {
        Seq::empty()
    } else {
        let prev = words(l.drop_last());
        let c = l.last();
        if is_space(c) {
            prev
        } else if l.len() >= 2 && !is_space(l[l.len() - 2]) {
            prev.update(prev.len() - 1, prev.last().push(c))
        } else {
            prev.push(seq![c])
        }
    }
}

/// The third column of each line that has exactly three columns, in order.
pub open spec fn third_columns(ls: Seq<Seq<char>>) -> Seq<Seq<char>>
    decreases ls.len(),
{
    if ls.len() == 0 {
        Seq::empty()
    } else {
        let r = third_columns(ls.drop_last());
        let w = words(ls.last());
        if w.len() == 3 {
            r.push(w[2])
        } else {
            r
        }
    }
}

pub open spec fn string_views(v: Seq<String>) -> Seq<Seq<char>> {
    v.map_values(|x: String| x@)
}

proof fn lemma_lines_nonempty(s: Seq<char>)
    ensures
        lines(s).len() >= 1,
    decreases s.len(),
{
    if s.len() > 0 {
        lemma_lines_nonempty(s.drop_last());
    }
}

proof fn lemma_words_nonempty(l: Seq<char>)
    requires
        l.len() > 0,
        !is_space(l.last()),
    ensures
        words(l).len() >= 1,
    decreases l.len(),
{
    if l.len() >= 2 && !is_space(l[l.len() - 2]) {
        lemma_words_nonempty(l.drop_last());
    }
}

fn is_space_char(c: char) -> (r: bool)
    ensures
        r == is_space(c),
{
    let x = c as u32;
    (0x09 <= x && x <= 0x0d) || x == 0x20 || x == 0x85 || x == 0xa0 || x == 0x1680 || (0x2000 <= x
        && x <= 0x200a) || x == 0x2028 || x == 0x2029 || x == 0x202f || x == 0x205f || x == 0x3000
}

/// The intensity column of a three-column text: for every line that holds
/// exactly three whitespace-separated columns, its third column, in file
/// order. Lines with another number of columns are skipped.
pub fn intensity_fields(content: &str) -> (r: Vec<String>)
    ensures
        string_views(r@) == third_columns(lines(content@)),
{
    let t = chars_of(content);
    let n = t.len();
    let mut out: Vec<String> = Vec::new();
    let mut count: usize = 0;
    let mut in_word = false;
    let mut start3: usize = 0;
    let mut end3: usize = 0;
    let mut i: usize = 0;
    proof {
        assert(t@.take(0) =~= Seq::<char>::empty());
    }
    while i < n
        invariant
            n == t@.len(),
            t@ == content@,
            i <= n,
            lines(t@.take(i as int)).len() >= 1,
            string_views(out@) == third_columns(lines(t@.take(i as int)).drop_last()),
            count == if words(lines(t@.take(i as int)).last()).len() < 4 {
                words(lines(t@.take(i as int)).last()).len()
            } else {
                4
            },
            in_word == (lines(t@.take(i as int)).last().len() > 0 && !is_space(
                lines(t@.take(i as int)).last().last(),
            )),
            count >= 3 ==> start3 <= end3 <= i && words(lines(t@.take(i as int)).last())[2] == t@.subrange(
                start3 as int,
                end3 as int,
            ),
            in_word && count == 3 ==> end3 == i,
        decreases n - i,
    {
        let c = t[i];
        let ghost pre = t@.take(i as int);
        let ghost ls = lines(pre);
        let ghost line = ls.last();
        let ghost w = words(line);
        let ghost post = t@.take(i + 1);
        proof {
            assert(post.drop_last() == pre);
            assert(post.last() == c);
            lemma_lines_nonempty(post);
        }
        if c == '\n' {
            proof {
                assert(lines(post) == ls.push(Seq::<char>::empty()));
                assert(lines(post).drop_last() == ls);
                assert(ls == ls.drop_last().push(line));
            }
            if count == 3 {
                let f = content.substring_char(start3, end3).to_owned();
                proof {
                    assert(string_views(out@.push(f)) =~= string_views(out@).push(f@));
                }
                out.push(f);
            }
            count = 0;
            in_word = false;
        } else if is_space_char(c) {
            proof {
                let line2 = line.push(c);
                assert(line2.drop_last() == line);
                assert(lines(post) == ls.update(ls.len() - 1, line2));
                assert(lines(post).drop_last() =~= ls.drop_last());
                assert(words(line2) == w);
            }
            in_word = false;
        } else {
            let ghost line2 = line.push(c);
            proof {
                assert(line2.drop_last() == line);
                assert(lines(post) == ls.update(ls.len() - 1, line2));
                assert(lines(post).drop_last() =~= ls.drop_last());
                assert(lines(post).last() == line2);
            }
            if in_word {
                proof {
                    assert(line2[line2.len() - 2] == line.last());
                    lemma_words_nonempty(line);
                    assert(words(line2) == w.update(w.len() - 1, w.last().push(c)));
                }
                if count == 3 {
                    proof {
                        assert(t@.subrange(start3 as int, i + 1) =~= t@.subrange(start3 as int, end3 as int).push(c));
                    }
                    end3 = i + 1;
                }
            } else {
                proof {
                    assert(words(line2) == w.push(seq![c]));
                }
                if count < 4 {
                    count = count + 1;
                }
                if count == 3 {
                    start3 = i;
                    end3 = i + 1;
                    proof {
                        assert(t@.subrange(i as int, i + 1) =~= seq![c]);
                    }
                }
            }
            in_word = true;
        }
        i = i + 1;
    }
    let ghost ls = lines(t@.take(n as int));
    proof {
        assert(t@.take(n as int) == t@);
        assert(ls == ls.drop_last().push(ls.last()));
    }
    if count == 3 {
        let f = content.substring_char(start3, end3).to_owned();
        proof {
            assert(string_views(out@.push(f)) =~= string_views(out@).push(f@));
        }
        out.push(f);
    }
    out
}

} // verus!
