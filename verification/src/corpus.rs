//! Training corpora in MeCab's output format: sentence blocks closed by
//! `EOS`, one morpheme per line with its surface before the first tab;
//! and the split of a corpus into training and development sentences.

use vstd::prelude::*;
use crate::scan::{find_char, find_first, lemma_find_first, line_bounds, lines_of, trim, trim_bounds};
use crate::text::{chars_of, string_of_range, strings_view};

verus! {

/// The surface of a morpheme line: the text before its first tab.
pub open spec fn first_field(l: Seq<char>) -> Seq<char> {
    match find_first(l, '\t') {
        Some(i) => l.take(i),
        None => l,
    }
}

/// The sentence of a block: its surfaces, one after another.
pub open spec fn block_text(block: Seq<Seq<char>>) -> Seq<char>
    decreases block.len(),
{
    if block.len() == 0 {
        Seq::empty()
    } else {
        block_text(block.drop_last()) + first_field(block.last())
    }
}

/// The lines of a block joined with `'\n'`.
pub open spec fn join_lines(block: Seq<Seq<char>>) -> Seq<char>
    decreases block.len(),
{
    if block.len() == 0 {
        Seq::empty()
    } else if block.len() == 1 {
        block[0]
    } else {
        join_lines(block.drop_last()) + seq!['\n'] + block.last()
    }
}

/// The finished (sentence, lines) pairs and the lines of the open block.
pub open spec fn corpus_step(
    st: (Seq<(Seq<char>, Seq<char>)>, Seq<Seq<char>>),
    raw: Seq<char>,
) -> (Seq<(Seq<char>, Seq<char>)>, Seq<Seq<char>>) {
    let t = trim(raw);
    if t == "EOS"@ {
        (if st.1.len() > 0 { st.0.push((block_text(st.1), join_lines(st.1))) } else { st.0 }, Seq::empty())
    } else if t.len() > 0 {
        (st.0, st.1.push(raw))
    } else {
        st
    }
}

/// The state after the lines `ls`.
pub open spec fn corpus_state(ls: Seq<Seq<char>>) -> (Seq<(Seq<char>, Seq<char>)>, Seq<Seq<char>>)
    decreases ls.len(),
{
    if ls.len() == 0 {
        (Seq::empty(), Seq::empty())
    } else {
        corpus_step(corpus_state(ls.drop_last()), ls.last())
    }
}

/// The sentence blocks of a corpus: each block of non-blank lines closed
/// by an `EOS` line, or by the end of the text, as its sentence (the
/// surfaces joined) and its lines (joined with `'\n'`).
pub open spec fn corpus_blocks(text: Seq<char>) -> Seq<(Seq<char>, Seq<char>)> {
    let st = corpus_state(lines_of(text));
    if st.1.len() > 0 {
        st.0.push((block_text(st.1), join_lines(st.1)))
    } else {
        st.0
    }
}

/// The view of a list of blocks.
pub open spec fn blocks_view(v: Seq<(String, String)>) -> Seq<(Seq<char>, Seq<char>)> {
    v.map_values(|b: (String, String)| (b.0@, b.1@))
}

/// The sentence and the joined lines of a block.
fn make_block(block: &Vec<String>) -> (r: (String, String))
    ensures
        r.0@ == block_text(strings_view(block@)),
        r.1@ == join_lines(strings_view(block@)),
{
    let ghost b = strings_view(block@);
    let mut text = String::new();
    let mut tsv = String::new();
    let mut k: usize = 0;
    proof {
        assert(b.take(0) =~= Seq::<Seq<char>>::empty());
    }
    while k < block.len()
        invariant
            k <= b.len(),
            b == strings_view(block@),
            text@ == block_text(b.take(k as int)),
            tsv@ == join_lines(b.take(k as int)),
        decreases b.len() - k,
    {
        let cs = chars_of(block[k].as_str());
        let n = cs.len();
        let ghost l = b[k as int];
        proof {
            assert(b.take(k + 1).drop_last() =~= b.take(k as int));
            assert(b.take(k + 1).last() == l);
            assert(cs@.subrange(0, n as int) =~= l);
            lemma_find_first(l, '\t');
        }
        let end = match find_char(cs.as_slice(), 0, n, '\t') {
            Some(i) => i,
            None => n,
        };
        let field = string_of_range(cs.as_slice(), 0, end);
        proof {
            assert(field@ == first_field(l)) by {
                if end < n {
                    assert(l.take(end as int) =~= cs@.subrange(0, end as int));
                }
            }
        }
        text.append(field.as_str());
        if k > 0 {
            tsv.append("\n");
            proof {
                reveal_strlit("\n");
            }
        }
        tsv.append(block[k].as_str());
        proof {
            if k == 0 {
                assert(b.take(1) =~= seq![l]);
                assert(tsv@ =~= l);
            }
        }
        k += 1;
    }
    proof {
        assert(b.take(k as int) =~= b);
    }
    (text, tsv)
}

/// Split a MeCab-format corpus into sentence blocks (see [`corpus_blocks`]).
pub fn parse_mecab_tsv_corpus(corpus_text: &str) -> (r: Vec<(String, String)>)
    ensures
        blocks_view(r@) == corpus_blocks(corpus_text@),
{
    let cs = chars_of(corpus_text);
    let lb = line_bounds(cs.as_slice());
    let ghost ls = lines_of(cs@);
    let mut blocks: Vec<(String, String)> = Vec::new();
    let mut block: Vec<String> = Vec::new();
    let mut k: usize = 0;
    proof {
        assert(ls.take(0) =~= Seq::<Seq<char>>::empty());
        assert(blocks_view(blocks@) =~= Seq::<(Seq<char>, Seq<char>)>::empty());
        assert(strings_view(block@) =~= Seq::<Seq<char>>::empty());
    }
    while k < lb.len()
        invariant
            k <= lb@.len(),
            lb@.len() == ls.len(),
            ls == lines_of(cs@),
            forall|j: int| 0 <= j < lb@.len() ==> (#[trigger] lb@[j]).0 <= lb@[j].1 <= cs@.len()
                && cs@.subrange(lb@[j].0 as int, lb@[j].1 as int) == ls[j],
            corpus_state(ls.take(k as int)) == (blocks_view(blocks@), strings_view(block@)),
        decreases lb@.len() - k,
    {
        let (lo, hi) = lb[k];
        let (a, b) = trim_bounds(cs.as_slice(), lo, hi);
        let ghost before = corpus_state(ls.take(k as int));
        let ghost raw = ls[k as int];
        proof {
            assert(ls.take(k + 1).drop_last() =~= ls.take(k as int));
            assert(ls.take(k + 1).last() == raw);
            reveal_strlit("EOS");
        }
        let is_eos = b - a == 3 && cs[a] == 'E' && cs[a + 1] == 'O' && cs[a + 2] == 'S';
        proof {
            let t = cs@.subrange(a as int, b as int);
            if b - a == 3 {
                assert(t[0] == cs@[a as int] && t[1] == cs@[a + 1] && t[2] == cs@[a + 2]);
                if is_eos {
                    assert(t =~= "EOS"@);
                }
            }
            assert(is_eos == (t == "EOS"@)) by {
                if t == "EOS"@ {
                    assert(t.len() == 3);
                    assert(t[0] == 'E' && t[1] == 'O' && t[2] == 'S');
                }
            }
        }
        if is_eos {
            if block.len() > 0 {
                let pair = make_block(&block);
                let ghost old_blocks = blocks@;
                blocks.push(pair);
                proof {
                    assert(blocks_view(blocks@) =~= blocks_view(old_blocks).push((pair.0@, pair.1@)));
                }
            }
            block = Vec::new();
            proof {
                assert(strings_view(block@) =~= Seq::<Seq<char>>::empty());
            }
        } else if b > a {
            let line = string_of_range(cs.as_slice(), lo, hi);
            let ghost old_block = block@;
            block.push(line);
            proof {
                assert(strings_view(block@) =~= strings_view(old_block).push(raw));
            }
        }
        proof {
            assert(corpus_state(ls.take(k + 1)) == corpus_step(before, raw));
        }
        k += 1;
    }
    proof {
        assert(ls.take(k as int) =~= ls);
    }
    if block.len() > 0 {
        let pair = make_block(&block);
        let ghost old_blocks = blocks@;
        blocks.push(pair);
        proof {
            assert(blocks_view(blocks@) =~= blocks_view(old_blocks).push((pair.0@, pair.1@)));
        }
    }
    blocks
}

/// How many of `total` sentences go to the development set when
/// `requested` are asked for: at most all but one, none of an empty corpus.
pub open spec fn dev_count_spec(total: nat, requested: nat) -> nat {
    if total == 0 {
        0
    } else if requested < total - 1 {
        requested
    } else {
        (total - 1) as nat
    }
}

/// Split `total` sentences into (training, development) counts; the
/// development sentences are the last ones.
pub fn split_dev(total: usize, requested: usize) -> (r: (usize, usize))
    ensures
        r.1 == dev_count_spec(total as nat, requested as nat),
        r.0 + r.1 == total,
{
    let dev = if total == 0 {
        0
    } else if requested < total - 1 {
        requested
    } else {
        total - 1
    };
    (total - dev, dev)
}

} // verus!
