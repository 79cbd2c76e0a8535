use vstd::prelude::*;

use crate::affix_rules::{pfx_tag, sfx_tag, AffixEntry, AffixRule};
use crate::text::{
    bounded_digits, digits_value, parse_digits, same_text, slice_text, split_tokens, starts_with_text, texts_of,
    tokens,
};
use crate::trie::Trie;

verus! {

/// Reads the two lexicon formats, handed over line by line: a word list whose
/// first line gives the number of words, and a file of affix rules.
pub struct DictionaryLoader;

/// Why a word list was refused.
#[derive(Debug, PartialEq, Eq)]
pub enum LoadError {
    /// The list has no first line.
    MissingCount,
    /// The first line is not a decimal number.
    InvalidCount,
    /// The first line could not be read.
    UnreadableCount,
}

/// What a `usize` parse of `s` gives: an optional `+`, then decimal digits.
pub open spec fn count_value(s: Seq<char>) -> Option<int> {
    if s.len() > 0 && s[0] == '+' {
        bounded_digits(s.drop_first(), usize::MAX as int)
    } else {
        bounded_digits(s, usize::MAX as int)
    }
}

/// What an `i32` parse of `s` gives: an optional sign, then decimal digits.
pub open spec fn i32_value(s: Seq<char>) -> Option<int> {
    if s.len() > 0 && s[0] == '+' {
        bounded_digits(s.drop_first(), i32::MAX as int)
    } else if s.len() > 0 && s[0] == '-' {
        match bounded_digits(s.drop_first(), 0x8000_0000) {
            Some(v) => Some(-v),
            None => None,
        }
    } else {
        bounded_digits(s, i32::MAX as int)
    }
}

/// Parses a word count.
pub fn parse_count(s: &str) -> (r: Option<usize>)
    ensures
        match r {
            Some(v) => count_value(s@) == Some(v as int),
            None => count_value(s@).is_none(),
        },
{
    let n = s.unicode_len();
    let from: usize = if n > 0 && s.get_char(0) == '+' {
        1
    } else {
        0
    };
    proof {
        if from == 1 {
            assert(s@.subrange(1, s@.len() as int) =~= s@.drop_first());
        } else {
            assert(s@.subrange(0, s@.len() as int) =~= s@);
        }
    }
    let ghost d = s@.subrange(from as int, s@.len() as int);
    match parse_digits(s, from, usize::MAX as u64) {
        Some(v) => {
            proof {
                assert(v <= usize::MAX);
            }
            Some(v as usize)
        },
        None => None,
    }
}

/// Parses a signed 32-bit number.
pub fn parse_i32(s: &str) -> (r: Option<i32>)
    ensures
        match r {
            Some(v) => i32_value(s@) == Some(v as int),
            None => i32_value(s@).is_none(),
        },
{
    let n = s.unicode_len();
    let first = if n > 0 {
        s.get_char(0)
    } else {
        ' '
    };
    if n > 0 && (first == '+' || first == '-') {
        proof {
            assert(s@.subrange(1, s@.len() as int) =~= s@.drop_first());
        }
        if first == '-' {
            let ghost d = s@.subrange(1, s@.len() as int);
            match parse_digits(s, 1, 0x8000_0000) {
                Some(v) => {
                    proof {
                        assert(v <= 0x8000_0000);
                    }
                    let neg: i64 = 0 - (v as i64);
                    Some(neg as i32)
                },
                None => None,
            }
        } else {
            let ghost d = s@.subrange(1, s@.len() as int);
            match parse_digits(s, 1, 0x7fff_ffff) {
                Some(v) => {
                    proof {
                        assert(v <= 0x7fff_ffff);
                    }
                    Some(v as i32)
                },
                None => None,
            }
        }
    } else {
        proof {
            assert(s@.subrange(0, s@.len() as int) =~= s@);
        }
        let ghost d = s@.subrange(0, s@.len() as int);
        match parse_digits(s, 0, 0x7fff_ffff) {
            Some(v) => {
                proof {
                    assert(v <= 0x7fff_ffff);
                }
                Some(v as i32)
            },
            None => None,
        }
    }
}

/// Where the word of a dictionary line ends: at the first `/` from `i` on, or
/// at the end of the line.
pub open spec fn head_end(l: Seq<char>, i: int) -> int
    decreases l.len() - i,
{
    if i >= l.len() {
        l.len() as int
    } else if l[i] == '/' {
        i
    } else {
        head_end(l, i + 1)
    }
}

/// The word of a dictionary line: what stands before its first `/`.
pub open spec fn word_head(l: Seq<char>) -> Seq<char> {
    l.subrange(0, head_end(l, 0))
}

/// The lines of a word list as text, `None` where a line could not be read.
pub open spec fn opt_texts(v: Seq<Option<String>>) -> Seq<Option<Seq<char>>> {
    v.map_values(
        |o: Option<String>|
            match o {
                Some(l) => Some(l@),
                None => None,
            },
    )
}

/// The words of the readable lines among lines `1 .. k` of a word list.
pub open spec fn heads_upto(lines: Seq<Option<Seq<char>>>, k: int) -> Set<Seq<char>>
    decreases k,
{
    if k <= 1 {
        Set::empty()
    } else {
        match lines[k - 1] {
            Some(l) => heads_upto(lines, k - 1).insert(word_head(l)),
            None => heads_upto(lines, k - 1),
        }
    }
}

/// The word of one dictionary line, without the flags after `/`.
pub fn line_word(line: &str) -> (r: String)
    ensures
        r@ == word_head(line@),
{
    let n = line.unicode_len();
    let mut i: usize = 0;
    while i < n
        invariant
            n == line@.len(),
            i <= n,
            head_end(line@, 0) == head_end(line@, i as int),
            forall|k: int| 0 <= k < i ==> line@[k] != '/',
        decreases n - i,
    {
        if line.get_char(i) == '/' {
            return slice_text(line, 0, i);
        }
        i = i + 1;
    }
    slice_text(line, 0, n)
}

/// An affix entry as text: strip, add, condition.
pub type EntryView = (Seq<char>, Seq<char>, Seq<char>);

/// An affix rule as text: type, flag, cross product, entries.
pub type RuleView = (Seq<char>, Seq<char>, bool, Seq<EntryView>);

pub open spec fn entry_view(e: AffixEntry) -> EntryView {
    (e.strip@, e.add@, e.condition@)
}

pub open spec fn rule_view(r: AffixRule) -> RuleView {
    (r.rule_type@, r.flag@, r.cross_product, r.entries@.map_values(|e: AffixEntry| entry_view(e)))
}

/// A rule header: `PFX` or `SFX`, a flag, `Y` or `N`, and an entry count.
pub open spec fn is_header(t: Seq<Seq<char>>) -> bool {
    &&& t.len() == 4
    &&& (t[0] == pfx_tag() || t[0] == sfx_tag())
    &&& (t[2] == seq!['Y'] || t[2] == seq!['N'])
    &&& i32_value(t[3]) is Some
}

/// One line of an affix file read in state `st` (the open rule and the number
/// of entries it still expects): the next state, and the rule completed here.
/// Comments and lines of fewer than four tokens change nothing; a header opens
/// a rule; any other line whose type and flag match the open rule adds an entry
/// (its condition, the fifth token, may be missing), and the rule is complete
/// when the count it expects comes down to zero.
pub open spec fn affix_line(st: Option<(RuleView, int)>, line: Seq<char>) -> (
    Option<(RuleView, int)>,
    Option<RuleView>,
) {
    let t = tokens(line);
    if (line.len() > 0 && line[0] == '#') || t.len() < 4 {
        (st, None)
    } else if is_header(t) {
        (Some(((t[0], t[1], t[2] == seq!['Y'], Seq::empty()), i32_value(t[3]).unwrap())), None)
    } else {
        match st {
            None => (None, None),
            Some((r, e)) => if t[0] == r.0 && t[1] == r.1 {
                let strip = if t[2] == seq!['0'] {
                    Seq::<char>::empty()
                } else {
                    t[2]
                };
                let cond = if t.len() > 4 {
                    t[4]
                } else {
                    Seq::<char>::empty()
                };
                let r2 = (r.0, r.1, r.2, r.3.push((strip, t[3], cond)));
                if e == 1 {
                    (None, Some(r2))
                } else if e > 1 {
                    (Some((r2, e - 1)), None)
                } else {
                    (Some((r2, e)), None)
                }
            } else {
                (st, None)
            },
        }
    }
}

/// The state after the first `n` lines, and the rules completed so far.
pub open spec fn affix_parse(lines: Seq<Seq<char>>, n: int) -> (
    Option<(RuleView, int)>,
    Seq<RuleView>,
)
    decreases n,
{
    if n <= 0 {
        (None, Seq::empty())
    } else {
        let (st, out) = affix_parse(lines, n - 1);
        let (st2, done) = affix_line(st, lines[n - 1]);
        (
            st2,
            match done {
                Some(r) => out.push(r),
                None => out,
            },
        )
    }
}

pub open spec fn state_of(current: Option<AffixRule>, expected: i64) -> Option<(RuleView, int)> {
    match current {
        Some(r) => Some((rule_view(r), expected as int)),
        None => None,
    }
}

impl DictionaryLoader {
    /// Inserts the words of a word list into `trie`. Line 0 gives the count;
    /// the words are on the lines after it, as many as it says or as there are.
    /// A line that could not be read (`None`) counts as read but adds no word.
    /// Returns how many lines were read.
    pub fn read_dictionary(lines: &Vec<Option<String>>, trie: &mut Trie) -> (r: Result<
        usize,
        LoadError,
    >)
        requires
            old(trie).wf(),
        ensures
            final(trie).wf(),
            lines@.len() == 0 ==> r == Err::<usize, LoadError>(LoadError::MissingCount)
                && final(trie)@ == old(trie)@,
            lines@.len() > 0 && opt_texts(lines@)[0] is None ==> r == Err::<usize, LoadError>(
                LoadError::UnreadableCount,
            ) && final(trie)@ == old(trie)@,
            lines@.len() > 0 && opt_texts(lines@)[0] is Some && count_value(
                opt_texts(lines@)[0]->Some_0,
            ).is_none() ==> r == Err::<usize, LoadError>(LoadError::InvalidCount) && final(trie)@
                == old(trie)@,
            lines@.len() > 0 && opt_texts(lines@)[0] is Some && count_value(
                opt_texts(lines@)[0]->Some_0,
            ).is_some() ==> {
                let n = count_value(opt_texts(lines@)[0]->Some_0).unwrap();
                let read = if n < lines@.len() - 1 {
                    n
                } else {
                    lines@.len() - 1
                };
                &&& r == Ok::<usize, LoadError>(read as usize)
                &&& final(trie)@ == old(trie)@.union(heads_upto(opt_texts(lines@), read + 1))
            },
    {
        if lines.len() == 0 {
            return Err(LoadError::MissingCount);
        }
        let ghost ls = opt_texts(lines@);
        let first: &Option<String> = &lines[0];
        let count = match first {
            Some(l) => {
                proof {
                    assert(ls[0] == Some(l@));
                }
                match parse_count(l.as_str()) {
                    Some(c) => c,
                    None => {
                        return Err(LoadError::InvalidCount);
                    },
                }
            },
            None => {
                proof {
                    assert(ls[0] is None);
                }
                return Err(LoadError::UnreadableCount);
            },
        };
        let read: usize = if count < lines.len() - 1 {
            count
        } else {
            lines.len() - 1
        };
        let mut k: usize = 1;
        proof {
            assert(trie@ =~= old(trie)@.union(heads_upto(ls, 1)));
        }
        while k <= read
            invariant
                trie.wf(),
                1 <= k <= read + 1,
                read < lines@.len(),
                lines@.len() <= usize::MAX,
                ls == opt_texts(lines@),
                ls[0] is Some,
                count_value(ls[0]->Some_0) == Some(count as int),
                read == (if count < lines@.len() - 1 {
                    count as int
                } else {
                    lines@.len() - 1
                }),
                trie@ == old(trie)@.union(heads_upto(ls, k as int)),
            decreases read + 1 - k,
        {
            let line: &Option<String> = &lines[k];
            match line {
                Some(l) => {
                    let w = line_word(l.as_str());
                    trie.insert(w.as_str());
                    proof {
                        assert(ls[k as int] == Some(l@));
                        assert(trie@ =~= old(trie)@.union(heads_upto(ls, k + 1)));
                    }
                },
                None => {
                    proof {
                        assert(ls[k as int] is None);
                        assert(trie@ =~= old(trie)@.union(heads_upto(ls, k + 1)));
                    }
                },
            }
            k = k + 1;
        }
        Ok(read)
    }

    /// The rules of an affix file, in the order in which they were completed;
    /// a rule still open at the end is left out.
    pub fn parse_affix_rules(lines: &Vec<String>) -> (r: Vec<AffixRule>)
        ensures
            r@.map_values(|x: AffixRule| rule_view(x)) == affix_parse(
                texts_of(lines@),
                lines@.len() as int,
            ).1,
    {
        proof {
            reveal_strlit("PFX");
            reveal_strlit("SFX");
            reveal_strlit("0");
            reveal_strlit("Y");
            reveal_strlit("N");
            assert("N"@ =~= seq!['N']);
            reveal_strlit("#");
            assert("PFX"@ =~= pfx_tag());
            assert("SFX"@ =~= sfx_tag());
            assert("0"@ =~= seq!['0']);
            assert("Y"@ =~= seq!['Y']);
            assert("#"@ =~= seq!['#']);
        }
        let ghost ls = texts_of(lines@);
        let mut out: Vec<AffixRule> = Vec::new();
        let mut current: Option<AffixRule> = None;
        let mut expected: i64 = 0;
        let mut i: usize = 0;
        proof {
            assert(out@.map_values(|x: AffixRule| rule_view(x)) =~= Seq::<RuleView>::empty());
        }
        while i < lines.len()
            invariant
                i <= lines@.len(),
                ls == texts_of(lines@),
                -0x8000_0000 <= expected < 0x8000_0000,
                "PFX"@ == pfx_tag(),
                "SFX"@ == sfx_tag(),
                "0"@ == seq!['0'],
                "Y"@ == seq!['Y'],
                "N"@ == seq!['N'],
                "#"@ == seq!['#'],
                state_of(current, expected) == affix_parse(ls, i as int).0,
                out@.map_values(|x: AffixRule| rule_view(x)) == affix_parse(ls, i as int).1,
            decreases lines@.len() - i,
        {
            let line = lines[i].as_str();
            let toks = split_tokens(line);
            let comment = starts_with_text(line, "#");
            let ghost st = affix_parse(ls, i as int).0;
            let ghost t = tokens(line@);
            proof {
                assert(ls[i as int] == line@);
                if line@.len() > 0 {
                    assert(line@.subrange(0, 1) =~= seq![line@[0]]);
                    if line@[0] == '#' {
                        assert(line@.subrange(0, 1) =~= seq!['#']);
                    }
                    if comment {
                        assert(line@.subrange(0, 1)[0] == '#');
                    }
                }
                assert(comment == (line@.len() > 0 && line@[0] == '#'));
                assert(texts_of(toks@) == t);
            }
            let mut header: Option<i32> = None;
            if toks.len() == 4 && (same_text(toks[0].as_str(), "PFX") || same_text(
                toks[0].as_str(),
                "SFX",
            )) && (same_text(toks[2].as_str(), "Y") || same_text(toks[2].as_str(), "N")) {
                proof {
                    assert(toks@[0]@ == t[0]);
                    assert(toks@[2]@ == t[2]);
                    assert(toks@[3]@ == t[3]);
                }
                header = parse_i32(toks[3].as_str());
            }
            proof {
                if toks@.len() == 4 {
                    assert(toks@[0]@ == t[0]);
                    assert(toks@[2]@ == t[2]);
                    assert(toks@[3]@ == t[3]);
                }
                assert(header.is_some() == is_header(t));
            }
            if comment || toks.len() < 4 {
            } else if header.is_some() {
                proof {
                    assert(toks@[0]@ == t[0]);
                    assert(toks@[2]@ == t[2]);
                    assert(toks@[3]@ == t[3]);
                }
                let cnt: i64 = match header {
                    Some(v) => v as i64,
                    None => 0,
                };
                let cross = same_text(toks[2].as_str(), "Y");
                let rule = AffixRule {
                    rule_type: toks[0].clone(),
                    flag: toks[1].clone(),
                    cross_product: cross,
                    entries: Vec::new(),
                };
                proof {
                    assert(rule.entries@.map_values(|e: AffixEntry| entry_view(e)) =~= Seq::<
                        EntryView,
                    >::empty());
                    assert(toks@[1]@ == t[1]);
                }
                current = Some(rule);
                expected = cnt;
            } else {
                proof {
                    assert(toks@[0]@ == t[0]);
                    assert(toks@[1]@ == t[1]);
                    assert(toks@[2]@ == t[2]);
                    assert(toks@[3]@ == t[3]);
                    if t.len() > 4 {
                        assert(toks@[4]@ == t[4]);
                    }
                }
                match current {
                    None => {},
                    Some(mut rule) => {
                        if same_text(toks[0].as_str(), rule.rule_type.as_str()) && same_text(
                            toks[1].as_str(),
                            rule.flag.as_str(),
                        ) {
                            let strip = if same_text(toks[2].as_str(), "0") {
                                String::new()
                            } else {
                                toks[2].clone()
                            };
                            let condition = if toks.len() > 4 {
                                toks[4].clone()
                            } else {
                                String::new()
                            };
                            let entry = AffixEntry { strip, add: toks[3].clone(), condition };
                            let ghost before = rule.entries@;
                            rule.entries.push(entry);
                            proof {
                                assert(rule.entries@.map_values(|e: AffixEntry| entry_view(e))
                                    =~= before.map_values(|e: AffixEntry| entry_view(e)).push(
                                    entry_view(entry),
                                ));
                            }
                            if expected == 1 {
                                let ghost prev = out@;
                                out.push(rule);
                                proof {
                                    assert(out@.map_values(|x: AffixRule| rule_view(x))
                                        =~= prev.map_values(|x: AffixRule| rule_view(x)).push(
                                        rule_view(rule),
                                    ));
                                }
                                current = None;
                            } else {
                                if expected > 1 {
                                    expected = expected - 1;
                                }
                                current = Some(rule);
                            }
                        } else {
                            current = Some(rule);
                        }
                    },
                }
            }
            i = i + 1;
        }
        out
    }
}

} // verus!
