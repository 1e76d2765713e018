use vstd::prelude::*;
use crate::hosts::strings_view;

verus! {

/// Relies on String::push: the character is appended at the end.
pub assume_specification[ String::push ](s: &mut String, ch: char)
    ensures
        final(s)@ == old(s)@.push(ch),
;

/// The newline byte.
pub const NEWLINE: u8 = 10;

/// The `=` byte that separates a key from its value.
pub const EQUALS: u8 = 61;

/// The byte stream split at each newline byte, with every byte above 127
/// left out (the last segment is what follows the last newline).
pub open spec fn segments(b: Seq<u8>) -> Seq<Seq<u8>>
    decreases b.len(),
{
    if b.len() == 0 {
        seq![Seq::<u8>::empty()]
    } else {
        let prev = segments(b.drop_last());
        let c = b.last();
        if c == NEWLINE {
            prev.push(Seq::<u8>::empty())
        } else if c > 127 {
            prev
        } else {
            prev.update(prev.len() - 1, prev.last().push(c))
        }
    }
}

/// Whether a byte, read as a character, is whitespace to `char::is_whitespace`.
pub open spec fn is_space(c: u8) -> bool {
    c == 32 || (9 <= c && c <= 13) || c == 0x85 || c == 0xA0
}

/// `s` without leading whitespace.
pub open spec fn trim_start(s: Seq<u8>) -> Seq<u8>
    decreases s.len(),
{
    if s.len() > 0 && is_space(s[0]) {
        trim_start(s.drop_first())
    } else {
        s
    }
}

/// `s` without trailing whitespace.
pub open spec fn trim_end(s: Seq<u8>) -> Seq<u8>
    decreases s.len(),
{
    if s.len() > 0 && is_space(s.last()) {
        trim_end(s.drop_last())
    } else {
        s
    }
}

/// `s` without leading and trailing whitespace.
pub open spec fn trim(s: Seq<u8>) -> Seq<u8> {
    trim_end(trim_start(s))
}

/// The trimmed lines that are not empty, in order.
pub open spec fn kept_lines(ls: Seq<Seq<u8>>) -> Seq<Seq<u8>>
    decreases ls.len(),
{
    if ls.len() == 0 {
        Seq::<Seq<u8>>::empty()
    } else {
        let rest = kept_lines(ls.drop_last());
        let t = trim(ls.last());
        if t.len() > 0 {
            rest.push(t)
        } else {
            rest
        }
    }
}

/// The lines of a command's output, as bytes.
pub open spec fn output_lines(b: Seq<u8>) -> Seq<Seq<u8>> {
    kept_lines(segments(b))
}

/// Each byte read as the character of the same code.
pub open spec fn chars_of(b: Seq<u8>) -> Seq<char> {
    b.map_values(|c: u8| c as char)
}

/// The lines of a command's output, as text.
pub open spec fn extracted_lines(b: Seq<u8>) -> Seq<Seq<char>> {
    output_lines(b).map_values(|l: Seq<u8>| chars_of(l))
}

/// The contents of a list of byte vectors.
pub open spec fn bytes_view(v: Seq<Vec<u8>>) -> Seq<Seq<u8>> {
    v.map_values(|l: Vec<u8>| l@)
}

proof fn lemma_segments_nonempty(b: Seq<u8>)
    ensures
        segments(b).len() >= 1,
    decreases b.len(),
{
    if b.len() > 0 {
        lemma_segments_nonempty(b.drop_last());
    }
}

/// The text of `b[lo..hi]`, each byte read as one character.
fn text_of(b: &[u8], lo: usize, hi: usize) -> (r: String)
    requires
        lo <= hi <= b@.len(),
    ensures
        r@ == chars_of(b@.subrange(lo as int, hi as int)),
{
    let mut r = String::new();
    let mut i: usize = lo;
    while i < hi
        invariant
            lo <= i <= hi,
            hi <= b@.len(),
            r@ == chars_of(b@.subrange(lo as int, i as int)),
        decreases hi - i,
    {
        let c = b[i];
        assert(b@.subrange(lo as int, hi as int)[i - lo] == c);
        r.push(c as char);
        i = i + 1;
        assert(chars_of(b@.subrange(lo as int, i as int)) =~= chars_of(
            b@.subrange(lo as int, i - 1),
        ).push(c as char));
    }
    r
}

/// The bounds of `s` without leading and trailing whitespace.
fn trim_bounds(s: &[u8]) -> (r: (usize, usize))
    ensures
        r.0 <= r.1 <= s@.len(),
        s@.subrange(r.0 as int, r.1 as int) == trim(s@),
{
    let mut a: usize = 0;
    assert(s@.subrange(0, s@.len() as int) =~= s@);
    while a < s.len() && (s[a] == 32 || (9 <= s[a] && s[a] <= 13) || s[a] == 0x85 || s[a] == 0xA0)
        invariant
            a <= s@.len(),
            trim_start(s@) == trim_start(s@.subrange(a as int, s@.len() as int)),
        decreases s@.len() - a,
    {
        assert(s@.subrange(a as int, s@.len() as int).drop_first() =~= s@.subrange(
            a + 1,
            s@.len() as int,
        ));
        a = a + 1;
    }
    assert(trim_start(s@) == s@.subrange(a as int, s@.len() as int));
    let mut e: usize = s.len();
    while e > a && (s[e - 1] == 32 || (9 <= s[e - 1] && s[e - 1] <= 13) || s[e - 1] == 0x85 || s[e - 1] == 0xA0)
        invariant
            a <= e <= s@.len(),
            trim(s@) == trim_end(s@.subrange(a as int, e as int)),
        decreases e,
    {
        assert(s@.subrange(a as int, e as int).drop_last() =~= s@.subrange(a as int, e - 1));
        e = e - 1;
    }
    (a, e)
}

/// Splits raw command output into its non-empty lines, each trimmed, with
/// bytes above 127 dropped one by one.
fn byte_lines(out: &[u8]) -> (r: Vec<Vec<u8>>)
    ensures
        bytes_view(r@) == output_lines(out@),
{
    let mut lines: Vec<Vec<u8>> = Vec::new();
    let mut cur: Vec<u8> = Vec::new();
    let ghost mut done: Seq<Seq<u8>> = Seq::empty();
    let mut i: usize = 0;
    while i < out.len()
        invariant
            i <= out@.len(),
            segments(out@.subrange(0, i as int)) == done.push(cur@),
            bytes_view(lines@) == kept_lines(done),
        decreases out@.len() - i,
    {
        let c = out[i];
        assert(out@.subrange(0, i + 1).drop_last() =~= out@.subrange(0, i as int));
        if c == NEWLINE {
            let (a, e) = trim_bounds(cur.as_slice());
            if a < e {
                let mut t: Vec<u8> = Vec::new();
                let mut j: usize = a;
                while j < e
                    invariant
                        a <= j <= e <= cur@.len(),
                        t@ == cur@.subrange(a as int, j as int),
                    decreases e - j,
                {
                    t.push(cur[j]);
                    j = j + 1;
                    assert(t@ =~= cur@.subrange(a as int, j as int));
                }
                lines.push(t);
                proof {
                    assert(bytes_view(lines@) =~= kept_lines(done).push(trim(cur@)));
                }
            }
            proof {
                assert(done.push(cur@).drop_last() =~= done);
                done = done.push(cur@);
            }
            cur = Vec::new();
        } else if c <= 127 {
            let ghost before = cur@;
            cur.push(c);
            proof {
                let p = done.push(before);
                assert(p.update(p.len() - 1, p.last().push(c)) =~= done.push(cur@));
            }
        }
        i = i + 1;
    }
    assert(out@.subrange(0, out@.len() as int) =~= out@);
    let (a, e) = trim_bounds(cur.as_slice());
    if a < e {
        let mut t: Vec<u8> = Vec::new();
        let mut j: usize = a;
        while j < e
            invariant
                a <= j <= e <= cur@.len(),
                t@ == cur@.subrange(a as int, j as int),
            decreases e - j,
        {
            t.push(cur[j]);
            j = j + 1;
            assert(t@ =~= cur@.subrange(a as int, j as int));
        }
        lines.push(t);
        proof {
            assert(bytes_view(lines@) =~= kept_lines(done).push(trim(cur@)));
        }
    }
    proof {
        assert(done.push(cur@).drop_last() =~= done);
    }
    lines
}


/// Whether `pat` occurs in `s` as a contiguous run.
pub open spec fn has_infix(s: Seq<char>, pat: Seq<char>) -> bool {
    exists|i: int| 0 <= i && i + pat.len() <= s.len() && #[trigger] s.subrange(i, i + pat.len()) == pat
}

/// The characters of `s`.
fn chars_vec(s: &str) -> (r: Vec<char>)
    ensures
        r@ == s@,
{
    let n = s.unicode_len();
    let mut r: Vec<char> = Vec::new();
    let mut i: usize = 0;
    while i < n
        invariant
            i <= n,
            n == s@.len(),
            r@ == s@.take(i as int),
        decreases n - i,
    {
        r.push(s.get_char(i));
        i = i + 1;
        assert(r@ =~= s@.take(i as int));
    }
    assert(s@.take(n as int) =~= s@);
    r
}

/// Whether `pat` occurs in `s` as a contiguous run.
fn contains_text(s: &str, pat: &str) -> (r: bool)
    ensures
        r == has_infix(s@, pat@),
{
    let sv = chars_vec(s);
    let pv = chars_vec(pat);
    let n = sv.len();
    let m = pv.len();
    if m > n {
        return false;
    }
    if m == 0 {
        assert(s@.subrange(0, 0 + pat@.len() as int) =~= pat@);
        return true;
    }
    let mut i: usize = 0;
    while i <= n - m
        invariant
            1 <= m <= n,
            n == s@.len(),
            m == pat@.len(),
            sv@ == s@,
            pv@ == pat@,
            forall|k: int| 0 <= k < i ==> #[trigger] s@.subrange(k, k + m) != pat@,
        decreases n - m + 1 - i,
    {
        let mut j: usize = 0;
        let mut same = true;
        while j < m && same
            invariant
                j <= m,
                i + m <= n,
                n == s@.len(),
                sv@ == s@,
                pv@ == pat@,
                m == pat@.len(),
                same ==> forall|k: int| 0 <= k < j ==> s@[i + k] == pat@[k],
                !same ==> s@.subrange(i as int, i + m) != pat@,
            decreases m - j,
        {
            if sv[i + j] != pv[j] {
                same = false;
                assert(s@.subrange(i as int, i + m)[j as int] != pat@[j as int]);
            }
            j = j + 1;
        }
        if same {
            assert(s@.subrange(i as int, i + m) =~= pat@);
            return true;
        }
        i = i + 1;
    }
    assert forall|k: int| 0 <= k && k + m <= n implies #[trigger] s@.subrange(k, k + m) != pat@ by {
        assert(k < i);
    }
    false
}

/// Splits raw command output into its non-empty lines, each trimmed of
/// whitespace; bytes above 127 are dropped one by one, not decoded.
pub fn vec_u8_to_vec_string(out: &[u8]) -> (r: Vec<String>)
    ensures
        strings_view(r@) == extracted_lines(out@),
{
    let lines = byte_lines(out);
    let mut r: Vec<String> = Vec::new();
    let mut k: usize = 0;
    while k < lines.len()
        invariant
            k <= lines@.len(),
            bytes_view(lines@) == output_lines(out@),
            strings_view(r@) == output_lines(out@).take(k as int).map_values(|l: Seq<u8>| chars_of(l)),
        decreases lines@.len() - k,
    {
        let line = &lines[k];
        assert(line@.subrange(0, line@.len() as int) =~= line@);
        let s = text_of(line.as_slice(), 0, line.len());
        let ghost before = r@;
        r.push(s);
        k = k + 1;
        proof {
            assert(bytes_view(lines@)[k - 1] == line@);
            assert(strings_view(r@) =~= strings_view(before).push(s@));
            assert(output_lines(out@).take(k as int).map_values(|l: Seq<u8>| chars_of(l))
                =~= output_lines(out@).take(k - 1).map_values(|l: Seq<u8>| chars_of(l)).push(chars_of(line@)));
            assert(strings_view(r@) =~= output_lines(out@).take(k as int).map_values(
                |l: Seq<u8>| chars_of(l),
            ));
        }
    }
    assert(output_lines(out@).take(lines@.len() as int) =~= output_lines(out@));
    r
}

/// The lines of a single-service status view: the first line is labelled as
/// the description.
pub open spec fn relabeled(ls: Seq<Seq<char>>) -> Seq<Seq<char>> {
    if ls.len() == 0 {
        ls
    } else {
        ls.update(0, "Description: "@ + ls[0])
    }
}

/// The status view of one service, from the output of its status query.
pub fn get_status(out: &[u8]) -> (r: Vec<String>)
    ensures
        strings_view(r@) == relabeled(extracted_lines(out@)),
{
    let mut lines = vec_u8_to_vec_string(out);
    if lines.len() > 0 {
        let mut first = "Description: ".to_owned();
        let rest = lines.remove(0);
        first.append(rest.as_str());
        lines.insert(0, first);
        proof {
            reveal_strlit("Description: ");
            assert(strings_view(lines@) =~= relabeled(extracted_lines(out@)));
        }
    }
    lines
}

/// The lines that mention `enabled`.
pub open spec fn enabled_lines(ls: Seq<Seq<char>>) -> Seq<Seq<char>> {
    ls.filter(|l: Seq<char>| has_infix(l, "enabled"@))
}

/// The unit-file lines kept for a listing: only those that mention
/// `enabled` unless `enabled_only` is `Some(false)`.
pub open spec fn unit_file_lines(ls: Seq<Seq<char>>, enabled_only: Option<bool>) -> Seq<Seq<char>> {
    if enabled_only != Some(false) {
        enabled_lines(ls)
    } else {
        ls
    }
}

/// Filters unit-file lines; an unspecified `enabled_only` means `true`.
pub fn filter_unit_files(lines: Vec<String>, enabled_only: Option<bool>) -> (r: Vec<String>)
    ensures
        strings_view(r@) == unit_file_lines(strings_view(lines@), enabled_only),
{
    let only = match enabled_only {
        Some(b) => b,
        None => true,
    };
    if !only {
        return lines;
    }
    let ghost ls = strings_view(lines@);
    let mut r: Vec<String> = Vec::new();
    let mut k: usize = 0;
    proof {
        reveal(Seq::filter);
        assert(ls.take(0).len() == 0);
        assert(strings_view(r@) =~= enabled_lines(ls.take(0)));
    }
    while k < lines.len()
        invariant
            k <= lines@.len(),
            ls == strings_view(lines@),
            strings_view(r@) == enabled_lines(ls.take(k as int)),
        decreases lines@.len() - k,
    {
        let keep = contains_text(lines[k].as_str(), "enabled");
        proof {
            assert(ls.take(k + 1).drop_last() =~= ls.take(k as int));
            assert(ls.take(k + 1).last() == lines@[k as int]@);
        }
        if keep {
            let ghost before = r@;
            let c = lines[k].clone();
            r.push(c);
            proof {
                reveal(Seq::filter);
                assert(enabled_lines(ls.take(k + 1)) == enabled_lines(ls.take(k as int)).push(lines@[k as int]@));
                assert(strings_view(r@) =~= strings_view(before).push(c@));
                assert(strings_view(r@) =~= enabled_lines(ls.take(k as int)).push(lines@[k as int]@));
            }
        } else {
            proof {
                reveal(Seq::filter);
                assert(enabled_lines(ls.take(k + 1)) == enabled_lines(ls.take(k as int)));
            }
        }
        k = k + 1;
    }
    assert(ls.take(lines@.len() as int) =~= ls);
    r
}

/// Lists unit files from the output of a unit-file listing.
pub fn list_unit_files(out: &[u8], enabled_only: Option<bool>) -> (r: Vec<String>)
    ensures
        strings_view(r@) == unit_file_lines(extracted_lines(out@), enabled_only),
{
    let lines = vec_u8_to_vec_string(out);
    filter_unit_files(lines, enabled_only)
}


/// The position of the first `=` in a line, if any.
pub open spec fn eq_index(l: Seq<char>) -> Option<int> {
    if l.contains('=') {
        Some(choose|i: int| 0 <= i < l.len() && l[i] == '=' && (forall|j: int| 0 <= j < i ==> l[j] != '='))
    } else {
        None
    }
}

/// Key/value pairs, as texts.
pub type Entries = Seq<(Seq<char>, Seq<char>)>;

/// No two entries share a key.
pub open spec fn keys_unique(es: Entries) -> bool {
    forall|i: int, j: int| 0 <= i < es.len() && 0 <= j < es.len() && i != j ==> es[i].0 != es[j].0
}

/// Whether some entry has key `k`.
pub open spec fn has_key(es: Entries, k: Seq<char>) -> bool {
    exists|i: int| 0 <= i < es.len() && es[i].0 == k
}

/// The position of the entry with key `k`, where there is one.
pub open spec fn key_index(es: Entries, k: Seq<char>) -> int {
    choose|i: int| 0 <= i < es.len() && es[i].0 == k
}

/// Sets the value of key `k`: in place when the key is there, else at the end.
pub open spec fn put(es: Entries, k: Seq<char>, v: Seq<char>) -> Entries {
    if has_key(es, k) {
        es.update(key_index(es, k), (k, v))
    } else {
        es.push((k, v))
    }
}

/// The key/value pairs of `key=value` lines, split at the first `=`; a
/// later line of the same key replaces the value.
pub open spec fn properties_of(ls: Seq<Seq<char>>) -> Entries
    decreases ls.len(),
{
    if ls.len() == 0 {
        Seq::empty()
    } else {
        let es = properties_of(ls.drop_last());
        let l = ls.last();
        match eq_index(l) {
            Some(i) => put(es, l.take(i), l.skip(i + 1)),
            None => es,
        }
    }
}

/// The lines that hold no `=`, each a parse warning.
pub open spec fn malformed_lines(ls: Seq<Seq<char>>) -> Seq<Seq<char>> {
    ls.filter(|l: Seq<char>| !l.contains('='))
}

proof fn lemma_put_unique(es: Entries, k: Seq<char>, v: Seq<char>)
    requires
        keys_unique(es),
    ensures
        keys_unique(put(es, k, v)),
{
    if has_key(es, k) {
        let i = key_index(es, k);
        let r = put(es, k, v);
        assert forall|a: int, b: int| 0 <= a < r.len() && 0 <= b < r.len() && a != b implies r[a].0 != r[b].0 by {
            assert(r[a].0 == es[a].0);
            assert(r[b].0 == es[b].0);
        }
    } else {
        let r = put(es, k, v);
        assert forall|a: int, b: int| 0 <= a < r.len() && 0 <= b < r.len() && a != b implies r[a].0 != r[b].0 by {
            if a < es.len() && b < es.len() {
                assert(r[a] == es[a] && r[b] == es[b]);
            } else if a == es.len() {
                assert(r[b] == es[b]);
            } else {
                assert(r[a] == es[a]);
            }
        }
    }
}

/// Key/value properties of a service, keys unique, in order of first
/// appearance.
#[derive(Debug)]
pub struct ServiceProperties {
    entries: Vec<(String, String)>,
}

impl View for ServiceProperties {
    type V = Entries;

    closed spec fn view(&self) -> Entries {
        self.entries@.map_values(|e: (String, String)| (e.0@, e.1@))
    }
}

impl ServiceProperties {
    /// Well-formed: keys are unique.
    pub open spec fn wf(&self) -> bool {
        keys_unique(self@)
    }

    /// No properties.
    pub fn new() -> (r: ServiceProperties)
        ensures
            r.wf(),
            r@ == Seq::<(Seq<char>, Seq<char>)>::empty(),
    {
        let r = ServiceProperties { entries: Vec::new() };
        assert(r@ =~= Seq::<(Seq<char>, Seq<char>)>::empty());
        r
    }

    /// Number of distinct keys.
    pub fn len(&self) -> (r: usize)
        ensures
            r == self@.len(),
    {
        self.entries.len()
    }

    fn find(&self, key: &str) -> (r: Option<usize>)
        requires
            self.wf(),
        ensures
            match r {
                Some(i) => i < self@.len() && has_key(self@, key@) && key_index(self@, key@) == i,
                None => !has_key(self@, key@),
            },
    {
        let target: String = key.to_owned();
        let mut i: usize = 0;
        while i < self.entries.len()
            invariant
                i <= self@.len(),
                self.wf(),
                target@ == key@,
                forall|j: int| 0 <= j < i ==> self@[j].0 != key@,
            decreases self@.len() - i,
        {
            if self.entries[i].0 == target {
                proof {
                    assert(self@[i as int].0 == key@);
                    let k = key_index(self@, key@);
                    assert(self@[k].0 == key@);
                }
                return Some(i);
            }
            i = i + 1;
        }
        None
    }

    /// The value of `key`, if present.
    pub fn get(&self, key: &str) -> (r: Option<&String>)
        requires
            self.wf(),
        ensures
            match r {
                Some(v) => has_key(self@, key@) && v@ == self@[key_index(self@, key@)].1,
                None => !has_key(self@, key@),
            },
    {
        match self.find(key) {
            Some(i) => Some(&self.entries[i].1),
            None => None,
        }
    }

    /// The key and value at position `i`.
    pub fn entry(&self, i: usize) -> (r: (&String, &String))
        requires
            i < self@.len(),
        ensures
            r.0@ == self@[i as int].0,
            r.1@ == self@[i as int].1,
    {
        (&self.entries[i].0, &self.entries[i].1)
    }

    /// Sets `key` to `value`, replacing an earlier value.
    pub fn insert(&mut self, key: String, value: String)
        requires
            old(self).wf(),
        ensures
            final(self).wf(),
            final(self)@ == put(old(self)@, key@, value@),
    {
        let ghost (k, v) = (key@, value@);
        match self.find(key.as_str()) {
            Some(i) => {
                self.entries.set(i, (key, value));
                proof {
                    assert(final(self)@ =~= old(self)@.update(i as int, (k, v)));
                }
            },
            None => {
                self.entries.push((key, value));
                proof {
                    assert(final(self)@ =~= old(self)@.push((k, v)));
                }
            },
        }
        proof {
            lemma_put_unique(old(self)@, k, v);
        }
    }
}

/// What a `show` query yields: the properties, and the lines that could not
/// be read as `key=value`.
#[derive(Debug)]
pub struct ServiceShow {
    pub properties: ServiceProperties,
    pub warnings: Vec<String>,
}

/// Position of the first `=` byte of `l`.
fn find_equals(l: &Vec<u8>) -> (r: Option<usize>)
    ensures
        eq_index(chars_of(l@)) == match r {
            Some(p) => Some(p as int),
            None => None::<int>,
        },
        r matches Some(p) ==> p < l@.len(),
{
    let ghost t = chars_of(l@);
    let mut i: usize = 0;
    while i < l.len()
        invariant
            i <= l@.len(),
            t == chars_of(l@),
            forall|j: int| 0 <= j < i ==> t[j] != '=',
        decreases l@.len() - i,
    {
        if l[i] == EQUALS {
            proof {
                assert(t[i as int] == '=');
                assert(t.contains('='));
                let k = choose|k: int| 0 <= k < t.len() && t[k] == '=' && (forall|j: int| 0 <= j < k ==> t[j] != '=');
                if k < i {
                    assert(t[k] != '=');
                }
                if i < k {
                    assert(t[i as int] != '=');
                }
            }
            return Some(i);
        }
        proof {
            assert(t[i as int] == (l@[i as int] as char));
        }
        i = i + 1;
    }
    proof {
        if t.contains('=') {
            let k = choose|k: int| 0 <= k < t.len() && t[k] == '=';
            assert(t[k] != '=');
        }
    }
    None
}

/// Reads the output of a `show` query: each line split at its first `=`
/// into key and value (a later key replaces an earlier one); a line with
/// no `=` is kept as a warning.
pub fn show_service(out: &[u8]) -> (r: ServiceShow)
    ensures
        r.properties.wf(),
        r.properties@ == properties_of(extracted_lines(out@)),
        strings_view(r.warnings@) == malformed_lines(extracted_lines(out@)),
{
    let lines = byte_lines(out);
    let ghost ls = extracted_lines(out@);
    let mut props = ServiceProperties::new();
    let mut warnings: Vec<String> = Vec::new();
    let mut k: usize = 0;
    proof {
        reveal(Seq::filter);
        assert(ls.take(0).len() == 0);
        assert(strings_view(warnings@) =~= malformed_lines(ls.take(0)));
        assert(props@ =~= properties_of(ls.take(0)));
    }
    while k < lines.len()
        invariant
            k <= lines@.len(),
            bytes_view(lines@) == output_lines(out@),
            ls == extracted_lines(out@),
            ls.len() == lines@.len(),
            props.wf(),
            props@ == properties_of(ls.take(k as int)),
            strings_view(warnings@) == malformed_lines(ls.take(k as int)),
        decreases lines@.len() - k,
    {
        let line = &lines[k];
        let ghost l = chars_of(line@);
        proof {
            assert(bytes_view(lines@)[k as int] == line@);
            assert(ls[k as int] == l);
            assert(ls.take(k + 1).drop_last() =~= ls.take(k as int));
            assert(ls.take(k + 1).last() == l);
            reveal(Seq::filter);
        }
        match find_equals(line) {
            Some(p) => {
                let key = text_of(line.as_slice(), 0, p);
                let value = text_of(line.as_slice(), p + 1, line.len());
                proof {
                    assert(key@ =~= l.take(p as int));
                    assert(value@ =~= l.skip(p + 1));
                    assert(l.contains('='));
                }
                props.insert(key, value);
            },
            None => {
                proof {
                    assert(line@.subrange(0, line@.len() as int) =~= line@);
                }
                let w = text_of(line.as_slice(), 0, line.len());
                let ghost before = warnings@;
                warnings.push(w);
                proof {
                    assert(!l.contains('='));
                    assert(strings_view(warnings@) =~= strings_view(before).push(l));
                }
            },
        }
        k = k + 1;
    }
    assert(ls.take(lines@.len() as int) =~= ls);
    ServiceShow { properties: props, warnings }
}


/// The whole output of a one-word query, each byte read as one character,
/// without leading and trailing whitespace.
pub open spec fn word_of(b: Seq<u8>) -> Seq<char> {
    chars_of(trim(b))
}

fn trimmed_text(out: &[u8]) -> (r: String)
    ensures
        r@ == word_of(out@),
{
    let (a, e) = trim_bounds(out);
    text_of(out, a, e)
}

/// The answer of an `is-active` query.
pub fn active_status(out: &[u8]) -> (r: String)
    ensures
        r@ == word_of(out@),
{
    trimmed_text(out)
}

/// The answer of an `is-enabled` query.
pub fn enabled_status(out: &[u8]) -> (r: String)
    ensures
        r@ == word_of(out@),
{
    trimmed_text(out)
}

/// Errors of service control.
#[derive(Debug, PartialEq, Eq)]
pub enum ServiceError {
    /// Only `start`, `stop` and `restart` may be sent.
    InvalidCommand,
}

/// The commands that may be sent to a service.
pub open spec fn is_control_command(c: Seq<char>) -> bool {
    c == "start"@ || c == "stop"@ || c == "restart"@
}

/// The service-manager arguments that send `command` for `service` on `host`.
pub open spec fn command_args(host: Seq<char>, service: Seq<char>, command: Seq<char>) -> Seq<Seq<char>> {
    seq!["-H"@, host, command, service]
}

fn args_for(host: &str, service: &str, command: &str) -> (r: Vec<String>)
    ensures
        strings_view(r@) == command_args(host@, service@, command@),
{
    let mut r: Vec<String> = Vec::new();
    r.push("-H".to_owned());
    r.push(host.to_owned());
    r.push(command.to_owned());
    r.push(service.to_owned());
    proof {
        assert(strings_view(r@) =~= command_args(host@, service@, command@));
    }
    r
}

/// Checks a control command against the allowed ones and gives the
/// arguments of its invocation.
pub fn send_command(host: &str, service: &str, command: &str) -> (r: Result<Vec<String>, ServiceError>)
    ensures
        r is Ok <==> is_control_command(command@),
        r matches Ok(args) ==> strings_view(args@) == command_args(host@, service@, command@),
        r is Err ==> r == Err::<Vec<String>, ServiceError>(ServiceError::InvalidCommand),
{
    let c: String = command.to_owned();
    let start: String = "start".to_owned();
    let stop: String = "stop".to_owned();
    let restart: String = "restart".to_owned();
    if c == start || c == stop || c == restart {
        Ok(args_for(host, service, command))
    } else {
        Err(ServiceError::InvalidCommand)
    }
}

/// The arguments that restart `service` on `host`.
pub fn restart_service(host: &str, service: &str) -> (r: Vec<String>)
    ensures
        strings_view(r@) == command_args(host@, service@, "restart"@),
{
    args_for(host, service, "restart")
}

/// The arguments that stop `service` on `host`.
pub fn stop_service(host: &str, service: &str) -> (r: Vec<String>)
    ensures
        strings_view(r@) == command_args(host@, service@, "stop"@),
{
    args_for(host, service, "stop")
}

/// The arguments that start `service` on `host`.
pub fn start_service(host: &str, service: &str) -> (r: Vec<String>)
    ensures
        strings_view(r@) == command_args(host@, service@, "start"@),
{
    args_for(host, service, "start")
}

} // verus!
