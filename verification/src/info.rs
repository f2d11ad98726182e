//! The device's info file.
//!
//! The device describes itself in a small text file of `key="value"`
//! assignments, one per line. Lines with anything other than exactly
//! one `=` are ignored; quotes are stripped from values; a later
//! assignment to a key overrides an earlier one. The device's name and
//! software version are read out of that dictionary, the version with
//! any `build-` prefix removed.

use vstd::prelude::*;

verus! {

/// First index of `c` in `s`, or `s.len()` if `s` has none.
pub open spec fn first_index(s: Seq<char>, c: char) -> int
    decreases s.len(),
{
    if s.len() == 0 {
        0
    } else if s[0] == c {
        0
    } else {
        1 + first_index(s.skip(1), c)
    }
}

/// How many times `c` occurs in `s`.
pub open spec fn count_char(s: Seq<char>, c: char) -> int
    decreases s.len(),
{
    if s.len() == 0 {
        0
    } else {
        count_char(s.drop_last(), c) + if s.last() == c {
            1int
        } else {
            0int
        }
    }
}

/// `s` without its `"` characters.
pub open spec fn strip_quotes(s: Seq<char>) -> Seq<char>
    decreases s.len(),
{
    if s.len() == 0 {
        s
    } else {
        let r = strip_quotes(s.drop_last());
        if s.last() == '"' {
            r
        } else {
            r.push(s.last())
        }
    }
}

/// The first occurrence lies between zero and the string's length.
pub proof fn lemma_first_index_bounds(s: Seq<char>, c: char)
    ensures
        0 <= first_index(s, c) <= s.len(),
    decreases s.len(),
{
    if s.len() > 0 && s[0] != c {
        lemma_first_index_bounds(s.skip(1), c);
    }
}

/// The text split into lines the way the info file is read: at `\n`,
/// with a `\r` just before the `\n` dropped, and with no final empty
/// line when the text ends in a line break.
pub open spec fn spec_lines(s: Seq<char>) -> Seq<Seq<char>>
    decreases s.len(),
    via spec_lines_decreases
{
    if s.len() == 0 {
        Seq::empty()
    } else {
        let i = first_index(s, '\n');
        if i >= s.len() {
            seq![s]
        } else {
            let line = s.take(i);
            let line = if line.len() > 0 && line.last() == '\r' {
                line.drop_last()
            } else {
                line
            };
            seq![line] + spec_lines(s.skip(i + 1))
        }
    }
}

#[via_fn]
proof fn spec_lines_decreases(s: Seq<char>) {
    lemma_first_index_bounds(s, '\n');
}

/// What one line contributes: a key and a quote-stripped value if the
/// line has exactly one `=`, and nothing otherwise.
pub open spec fn line_entry(l: Seq<char>) -> Option<(Seq<char>, Seq<char>)> {
    if count_char(l, '=') == 1 {
        let i = first_index(l, '=');
        Some((l.take(i), strip_quotes(l.skip(i + 1))))
    } else {
        None
    }
}

/// The dictionary a list of lines denotes; later lines override earlier ones.
pub open spec fn lines_map(ls: Seq<Seq<char>>) -> Map<Seq<char>, Seq<char>>
    decreases ls.len(),
{
    if ls.len() == 0 {
        Map::empty()
    } else {
        let m = lines_map(ls.drop_last());
        match line_entry(ls.last()) {
            Option::Some(kv) => m.insert(kv.0, kv.1),
            Option::None => m,
        }
    }
}

/// The dictionary a whole info file denotes.
pub open spec fn spec_parse_lines(s: Seq<char>) -> Map<Seq<char>, Seq<char>> {
    lines_map(spec_lines(s))
}

/// A key-to-value dictionary of strings, kept as the journal of its
/// insertions: the latest insertion of a key wins.
pub struct InfoDict {
    pub pairs: Vec<(String, String)>,
}

/// The map an insertion journal denotes.
pub open spec fn pairs_map(s: Seq<(String, String)>) -> Map<Seq<char>, Seq<char>>
    decreases s.len(),
{
    if s.len() == 0 {
        Map::empty()
    } else {
        pairs_map(s.drop_last()).insert(s.last().0@, s.last().1@)
    }
}

impl View for InfoDict {
    type V = Map<Seq<char>, Seq<char>>;

    open spec fn view(&self) -> Map<Seq<char>, Seq<char>> {
        pairs_map(self.pairs@)
    }
}

/// If `i` is the last insertion of its key, the dictionary holds that value.
proof fn lemma_pairs_map_hit(s: Seq<(String, String)>, i: int)
    requires
        0 <= i < s.len(),
        forall|j: int| i < j < s.len() ==> (#[trigger] s[j]).0@ != s[i].0@,
    ensures
        pairs_map(s).dom().contains(s[i].0@),
        pairs_map(s)[s[i].0@] == s[i].1@,
    decreases s.len(),
{
    if i < s.len() - 1 {
        lemma_pairs_map_hit(s.drop_last(), i);
        assert(s.drop_last()[i] == s[i]);
        assert(s.last().0@ != s[i].0@);
    }
}

/// A key never inserted is absent.
proof fn lemma_pairs_map_miss(s: Seq<(String, String)>, k: Seq<char>)
    requires
        forall|j: int| 0 <= j < s.len() ==> (#[trigger] s[j]).0@ != k,
    ensures
        !pairs_map(s).dom().contains(k),
    decreases s.len(),
{
    if s.len() > 0 {
        lemma_pairs_map_miss(s.drop_last(), k);
    }
}

/// Character-for-character comparison of two strings.
pub fn str_eq(a: &str, b: &str) -> (r: bool)
    ensures
        r == (a@ == b@),
{
    let na = a.unicode_len();
    let nb = b.unicode_len();
    if na != nb {
        return false;
    }
    let mut i: usize = 0;
    while i < na
        invariant
            i <= na == a@.len() == b@.len(),
            forall|k: int| 0 <= k < i ==> a@[k] == b@[k],
        decreases na - i,
    {
        if a.get_char(i) != b.get_char(i) {
            return false;
        }
        i = i + 1;
    }
    proof {
        assert(a@ =~= b@);
    }
    true
}

impl InfoDict {
    /// An empty dictionary.
    pub fn new() -> (r: Self)
        ensures
            r@ == Map::<Seq<char>, Seq<char>>::empty(),
    {
        InfoDict { pairs: Vec::new() }
    }

    /// Inserts `value` under `key`, overriding any earlier value.
    pub fn insert(&mut self, key: String, value: String)
        ensures
            final(self)@ == old(self)@.insert(key@, value@),
    {
        let ghost k = key@;
        let ghost v = value@;
        self.pairs.push((key, value));
        proof {
            assert(self.pairs@.drop_last() =~= old(self).pairs@);
            assert(self.pairs@.last().0@ == k && self.pairs@.last().1@ == v);
        }
    }

    /// The value under `key`, if any.
    pub fn get<'a>(&'a self, key: &str) -> (r: Option<&'a String>)
        ensures
            match r {
                Option::Some(v) => self@.dom().contains(key@) && v@ == self@[key@],
                Option::None => !self@.dom().contains(key@),
            },
    {
        let n = self.pairs.len();
        let mut i: usize = n;
        while i > 0
            invariant
                i <= n == self.pairs@.len(),
                forall|j: int| i <= j < n ==> (#[trigger] self.pairs@[j]).0@ != key@,
            decreases i,
        {
            i = i - 1;
            if str_eq(self.pairs[i].0.as_str(), key) {
                proof {
                    lemma_pairs_map_hit(self.pairs@, i as int);
                }
                return Some(&self.pairs[i].1);
            }
        }
        proof {
            lemma_pairs_map_miss(self.pairs@, key@);
        }
        None
    }
}

/// Scanning forward to `m` over characters other than `c` finds the
/// first occurrence exactly.
proof fn lemma_first_index_at(s: Seq<char>, c: char, m: int)
    requires
        0 <= m <= s.len(),
        forall|k: int| 0 <= k < m ==> s[k] != c,
        m < s.len() ==> s[m] == c,
    ensures
        first_index(s, c) == if m < s.len() {
            m
        } else {
            s.len() as int
        },
    decreases s.len(),
{
    if s.len() > 0 {
        if s[0] == c {
        } else {
            assert(forall|k: int| 0 <= k < m - 1 ==> s.skip(1)[k] == s[k + 1]);
            lemma_first_index_at(s.skip(1), c, if m == 0 {
                0
            } else {
                m - 1
            });
        }
    }
}

/// A string without `c` has zero count of it.
proof fn lemma_count_none(s: Seq<char>, c: char)
    requires
        forall|k: int| 0 <= k < s.len() ==> s[k] != c,
    ensures
        count_char(s, c) == 0,
    decreases s.len(),
{
    if s.len() > 0 {
        lemma_count_none(s.drop_last(), c);
    }
}

/// Counting forward over a prefix, one character at a time.
proof fn lemma_count_step(s: Seq<char>, c: char, j: int)
    requires
        0 <= j < s.len(),
    ensures
        count_char(s.take(j + 1), c) == count_char(s.take(j), c) + if s[j] == c {
            1int
        } else {
            0int
        },
{
    assert(s.take(j + 1).drop_last() =~= s.take(j));
    assert(s.take(j + 1).last() == s[j]);
}

/// Parses an info file: one `key="value"` per line, malformed lines
/// ignored, quotes stripped, later keys overriding earlier ones.
#[verifier::loop_isolation(false)]
#[verifier::rlimit(80)]
pub fn parse_lines(file_content: &str) -> (dict: InfoDict)
    ensures
        dict@ == spec_parse_lines(file_content@),
{
    let ghost s = file_content@;
    let n = file_content.unicode_len();
    let mut dict = InfoDict::new();
    let ghost mut processed: Seq<Seq<char>> = Seq::empty();
    let mut pos: usize = 0;
    proof {
        assert(s.skip(0) =~= s);
        assert(processed + spec_lines(s.skip(0)) =~= spec_lines(s));
    }
    while pos < n
        invariant
            pos <= n == s.len(),
            dict@ == lines_map(processed),
            spec_lines(s) == processed + spec_lines(s.skip(pos as int)),
        decreases n - pos,
    {
        let ghost rest = s.skip(pos as int);
        // Find the end of the current line.
        let mut end: usize = pos;
        while end < n && file_content.get_char(end) != '\n'
            invariant
                pos <= end <= n,
                forall|k: int| pos <= k < end ==> s[k] != '\n',
            decreases n - end,
        {
            end = end + 1;
        }
        proof {
            assert(forall|k: int| 0 <= k < end - pos ==> rest[k] == s[k + pos] && s[k + pos] != '\n');
            if end < n {
                assert(rest[end - pos] == s[end as int]);
            }
            lemma_first_index_at(rest, '\n', end - pos as int);
        }
        // Drop a carriage return before the line break.
        let mut le = end;
        if end < n && le > pos && file_content.get_char(le - 1) == '\r' {
            le = le - 1;
        }
        let ghost line = if end < n {
            let raw = rest.take(end - pos as int);
            if raw.len() > 0 && raw.last() == '\r' {
                raw.drop_last()
            } else {
                raw
            }
        } else {
            rest
        };
        proof {
            assert(rest.take(end - pos as int) =~= s.subrange(pos as int, end as int));
            if end < n {
                assert(line =~= s.subrange(pos as int, le as int));
            } else {
                assert(le == end == n);
                assert(line =~= s.subrange(pos as int, le as int));
            }
            if end < n {
                assert(spec_lines(rest) == seq![line] + spec_lines(s.skip(end + 1))) by {
                    assert(rest.skip(end - pos as int + 1) =~= s.skip(end + 1));
                }
            } else {
                assert(spec_lines(rest) == seq![line]);
            }
        }
        // Count the separators and find the first.
        let mut eqs: usize = 0;
        let mut feq: usize = le;
        let mut j: usize = pos;
        while j < le
            invariant
                pos <= j <= le <= n,
                line == s.subrange(pos as int, le as int),
                eqs == count_char(line.take(j - pos as int), '='),
                eqs <= j - pos,
                (eqs == 0) <==> (feq == le),
                feq == le || (pos <= feq < j && s[feq as int] == '='),
                forall|k: int| pos <= k < j && k < feq ==> s[k] != '=',
                feq == le ==> forall|k: int| pos <= k < j ==> s[k] != '=',
            decreases le - j,
        {
            proof {
                lemma_count_step(line, '=', j - pos as int);
                assert(line[j - pos as int] == s[j as int]);
            }
            if file_content.get_char(j) == '=' {
                if eqs == 0 {
                    feq = j;
                }
                eqs = eqs + 1;
            }
            j = j + 1;
        }
        proof {
            assert(line.take(le - pos as int) =~= line);
        }
        if eqs == 1 {
            proof {
                assert(feq < le) by {
                    if feq == le {
                        lemma_count_none(line, '=');
                    }
                }
                assert(forall|k: int| 0 <= k < feq - pos ==> line[k] == s[k + pos] && s[k + pos]
                    != '=');
                assert(line[feq - pos as int] == '=');
                lemma_first_index_at(line, '=', feq - pos as int);
            }
            let key = file_content.substring_char(pos, feq).to_owned();
            // Build the value, leaving out every quote.
            let mut value = String::new();
            let mut k: usize = feq + 1;
            let ghost vraw = line.skip(feq - pos as int + 1);
            proof {
                assert(vraw =~= s.subrange(feq as int + 1, le as int));
                assert(strip_quotes(vraw.take(0)) =~= value@);
            }
            while k < le
                invariant
                    feq < k <= le <= n,
                    vraw == s.subrange(feq as int + 1, le as int),
                    value@ == strip_quotes(vraw.take(k - (feq + 1) as int)),
                decreases le - k,
            {
                let c = file_content.get_char(k);
                proof {
                    let kk = k - (feq + 1) as int;
                    assert(vraw.take(kk + 1).drop_last() =~= vraw.take(kk));
                    assert(vraw.take(kk + 1).last() == vraw[kk] == s[k as int]);
                }
                if c != '"' {
                    let piece = file_content.substring_char(k, k + 1);
                    proof {
                        assert(piece@ =~= seq![s[k as int]]);
                    }
                    value.append(piece);
                    proof {
                        assert(value@ =~= strip_quotes(vraw.take(k - (feq + 1) as int)).push(
                            s[k as int],
                        ));
                    }
                }
                k = k + 1;
            }
            proof {
                assert(vraw.take(le - (feq + 1) as int) =~= vraw);
                assert(key@ =~= line.take(feq - pos as int));
                assert(line_entry(line) == Some((key@, value@)));
            }
            dict.insert(key, value);
            proof {
                assert(processed.push(line).drop_last() =~= processed);
            }
        } else {
            proof {
                assert(line_entry(line) is None);
                assert(processed.push(line).drop_last() =~= processed);
            }
        }
        proof {
            processed = processed.push(line);
        }
        if end < n {
            pos = end + 1;
            proof {
                assert(spec_lines(s) == processed + spec_lines(s.skip(pos as int)));
            }
        } else {
            pos = n;
            proof {
                assert(spec_lines(s.skip(n as int)) =~= Seq::<Seq<char>>::empty());
                assert(processed + spec_lines(s.skip(n as int)) =~= processed);
                assert(spec_lines(s) == processed + spec_lines(s.skip(pos as int)));
            }
        }
    }
    proof {
        assert(spec_lines(s.skip(pos as int)) =~= Seq::<Seq<char>>::empty());
        assert(spec_lines(s) =~= processed);
    }
    dict
}

} // verus!
