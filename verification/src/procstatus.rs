//! Reading the resident-set figures out of a Linux `/proc/<pid>/status` text.
use vstd::prelude::*;
use crate::text::{chars_of, string_from_utf8_lossy, utf8_lossy};
use vstd::utf8::{decode_utf8, valid_utf8};

verus! {

/// Resident memory figures, in bytes.
#[derive(Debug, Clone, Copy, PartialEq, Eq, Structural)]
pub struct ProcMemory {
    pub rss_bytes: u64,
    pub hwm_bytes: u64,
}

impl Default for ProcMemory {
    fn default() -> (r: Self)
        ensures
            r == (ProcMemory { rss_bytes: 0, hwm_bytes: 0 }),
    {
        ProcMemory { rss_bytes: 0, hwm_bytes: 0 }
    }
}

/// Unicode `White_Space`, which `char::is_whitespace` tests.
pub open spec fn is_ws(c: char) -> bool {
    ||| c == '\t' || c == '\n' || c == '\u{0B}' || c == '\u{0C}' || c == '\r' || c == ' '
    ||| c == '\u{85}' || c == '\u{A0}' || c == '\u{1680}'
    ||| ('\u{2000}' <= c && c <= '\u{200A}')
    ||| c == '\u{2028}' || c == '\u{2029}' || c == '\u{202F}' || c == '\u{205F}' || c == '\u{3000}'
}

fn char_is_ws(c: char) -> (r: bool)
    ensures
        r == is_ws(c),
{
    c == '\t' || c == '\n' || c == '\u{0B}' || c == '\u{0C}' || c == '\r' || c == ' '
        || c == '\u{85}' || c == '\u{A0}' || c == '\u{1680}'
        || ('\u{2000}' <= c && c <= '\u{200A}')
        || c == '\u{2028}' || c == '\u{2029}' || c == '\u{202F}' || c == '\u{205F}' || c == '\u{3000}'
}

/// A line without the `'\r'` of a `"\r\n"` ending.
pub open spec fn strip_cr(line: Seq<char>) -> Seq<char> {
    if line.len() > 0 && line.last() == '\r' {
        line.drop_last()
    } else {
        line
    }
}

/// The lines finished so far and the line in progress, after reading `s`.
pub open spec fn lines_fold(s: Seq<char>) -> (Seq<Seq<char>>, Seq<char>)
    decreases s.len(),
{
    if s.len() == 0 {
        (seq![], seq![])
    } else {
        let (done, cur) = lines_fold(s.drop_last());
        if s.last() == '\n' {
            (done.push(strip_cr(cur)), seq![])
        } else {
            (done, cur.push(s.last()))
        }
    }
}

/// The lines of `s` as `str::lines` yields them: split at `'\n'`, a `'\r'`
/// before it dropped, no empty line after a final `'\n'`.
pub open spec fn text_lines(s: Seq<char>) -> Seq<Seq<char>> {
    let (done, cur) = lines_fold(s);
    if cur.len() > 0 {
        done.push(cur)
    } else {
        done
    }
}

/// The value of a sequence of decimal digits.
pub open spec fn dec_value(ds: Seq<char>) -> int
    decreases ds.len(),
{
    if ds.len() == 0 {
        0
    } else {
        dec_value(ds.drop_last()) * 10 + (ds.last() as int - '0' as int)
    }
}

/// Every character is an ASCII digit.
pub open spec fn all_digits(ds: Seq<char>) -> bool {
    forall|i: int| 0 <= i < ds.len() ==> '0' <= #[trigger] ds[i] && ds[i] <= '9'
}

/// `u64::from_str`: an optional `'+'`, then one or more ASCII digits, with a
/// value that fits.
pub open spec fn parse_u64(tok: Seq<char>) -> Option<u64> {
    let ds = if tok.len() > 0 && tok[0] == '+' { tok.drop_first() } else { tok };
    if ds.len() == 0 || !all_digits(ds) || dec_value(ds) > u64::MAX {
        None
    } else {
        Some(dec_value(ds) as u64)
    }
}

/// Leading characters of `s` that are whitespace.
pub open spec fn ws_prefix_len(s: Seq<char>) -> nat
    decreases s.len(),
{
    if s.len() == 0 || !is_ws(s[0]) {
        0
    } else {
        1 + ws_prefix_len(s.drop_first())
    }
}

/// Leading characters of `s` that are not whitespace.
pub open spec fn token_len(s: Seq<char>) -> nat
    decreases s.len(),
{
    if s.len() == 0 || is_ws(s[0]) {
        0
    } else {
        1 + token_len(s.drop_first())
    }
}

/// The value after `key` at the start of `line`: the first
/// whitespace-separated token after it, read as a number of KiB and
/// returned in bytes (saturating).
pub open spec fn spec_kib_value(line: Seq<char>, key: Seq<char>) -> Option<u64> {
    if key.len() > line.len() || line.subrange(0, key.len() as int) != key {
        None
    } else {
        let rest = line.subrange(key.len() as int, line.len() as int);
        let t = rest.subrange(ws_prefix_len(rest) as int, rest.len() as int);
        let tok = t.subrange(0, token_len(t) as int);
        match parse_u64(tok) {
            None => None,
            Some(v) => Some(if v * 1024 > u64::MAX { u64::MAX } else { (v * 1024) as u64 }),
        }
    }
}


proof fn lemma_dec_value_mono(ds: Seq<char>, k: int)
    requires
        0 <= k <= ds.len(),
        all_digits(ds),
    ensures
        dec_value(ds.take(k)) <= dec_value(ds),
        dec_value(ds) >= 0,
    decreases ds.len() - k,
{
    if k < ds.len() {
        lemma_dec_value_mono(ds, k + 1);
        assert(ds.take(k + 1).drop_last() =~= ds.take(k));
        lemma_dec_value_nonneg(ds.take(k));
        assert(ds.take(k + 1).last() == ds[k]);
    } else {
        assert(ds.take(k) =~= ds);
        lemma_dec_value_nonneg(ds);
    }
}

proof fn lemma_dec_value_nonneg(ds: Seq<char>)
    requires
        all_digits(ds),
    ensures
        dec_value(ds) >= 0,
    decreases ds.len(),
{
    if ds.len() > 0 {
        lemma_dec_value_nonneg(ds.drop_last());
    }
}

/// Parse `tok` as `u64::from_str` does.
fn parse_u64_chars(tok: &[char]) -> (r: Option<u64>)
    ensures
        r == parse_u64(tok@),
{
    let n = tok.len();
    let start: usize = if n > 0 && tok[0] == '+' { 1 } else { 0 };
    let ghost ds = if tok@.len() > 0 && tok@[0] == '+' { tok@.drop_first() } else { tok@ };
    assert(ds =~= tok@.subrange(start as int, n as int));
    if start >= n {
        return None;
    }
    let mut acc: u64 = 0;
    let mut i: usize = start;
    while i < n
        invariant
            start <= i <= n == tok@.len(),
            ds == tok@.subrange(start as int, n as int),
            ds == (if tok@.len() > 0 && tok@[0] == '+' { tok@.drop_first() } else { tok@ }),
            ds.len() > 0,
            all_digits(ds.take(i - start)),
            acc == dec_value(ds.take(i - start)),
        decreases n - i,
    {
        let c = tok[i];
        assert(ds.take(i - start + 1).drop_last() =~= ds.take(i - start));
        assert(ds.take(i - start + 1).last() == c);
        assert(ds[(i - start) as int] == c);
        if !('0' <= c && c <= '9') {
            assert(!all_digits(ds));
            return None;
        }
        let d = (c as u32 - '0' as u32) as u64;
        assert(d == c as int - '0' as int);
        if acc > (0xffff_ffff_ffff_ffffu64 - d) / 10 {
            assert(acc * 10 + d > 0xffff_ffff_ffff_ffffu64) by (nonlinear_arith)
                requires acc > (0xffff_ffff_ffff_ffffu64 - d) / 10, d <= 9;
            proof {
                assert forall|j: int| 0 <= j < i - start + 1 implies '0' <= #[trigger] ds.take(i - start + 1)[j] && ds.take(i - start + 1)[j] <= '9' by {
                    if j < i - start {
                        assert(ds.take(i - start + 1)[j] == ds.take(i - start)[j]);
                    }
                }
                if all_digits(ds) {
                    lemma_dec_value_mono(ds, i - start + 1);
                }
            }
            return None;
        }
        acc = acc * 10 + d;
        proof {
            assert forall|j: int| 0 <= j < i - start + 1 implies '0' <= #[trigger] ds.take(i - start + 1)[j] && ds.take(i - start + 1)[j] <= '9' by {
                if j < i - start {
                    assert(ds.take(i - start + 1)[j] == ds.take(i - start)[j]);
                }
            }
        }
        i = i + 1;
    }
    assert(ds.take(i - start) =~= ds);
    Some(acc)
}

/// The value after `key` at the start of `line`, in bytes.
fn kib_value_chars(line: &Vec<char>, key: &Vec<char>) -> (r: Option<u64>)
    ensures
        r == spec_kib_value(line@, key@),
{
    let n = line.len();
    let k = key.len();
    if k > n {
        return None;
    }
    let mut i: usize = 0;
    while i < k
        invariant
            i <= k <= n,
            n == line@.len(),
            k == key@.len(),
            line@.subrange(0, i as int) == key@.subrange(0, i as int),
        decreases k - i,
    {
        if line[i] != key[i] {
            assert(line@.subrange(0, k as int)[i as int] != key@[i as int]);
            return None;
        }
        assert(line@.subrange(0, i + 1) =~= line@.subrange(0, i as int).push(line@[i as int]));
        assert(key@.subrange(0, i + 1) =~= key@.subrange(0, i as int).push(key@[i as int]));
        i = i + 1;
    }
    assert(key@.subrange(0, k as int) =~= key@);
    let ghost rest = line@.subrange(k as int, n as int);
    let mut j: usize = k;
    assert(rest.subrange(0, rest.len() as int) =~= rest);
    while j < n && char_is_ws(line[j])
        invariant
            k <= j <= n == line@.len(),
            rest == line@.subrange(k as int, n as int),
            ws_prefix_len(rest) == (j - k) + ws_prefix_len(line@.subrange(j as int, n as int)),
        decreases n - j,
    {
        assert(line@.subrange(j as int, n as int).drop_first() =~= line@.subrange(j + 1, n as int));
        j = j + 1;
    }
    assert(ws_prefix_len(line@.subrange(j as int, n as int)) == 0);
    let ghost t = rest.subrange(ws_prefix_len(rest) as int, rest.len() as int);
    assert(t =~= line@.subrange(j as int, n as int));
    let mut e: usize = j;
    while e < n && !char_is_ws(line[e])
        invariant
            j <= e <= n == line@.len(),
            t == line@.subrange(j as int, n as int),
            token_len(t) == (e - j) + token_len(line@.subrange(e as int, n as int)),
        decreases n - e,
    {
        assert(line@.subrange(e as int, n as int).drop_first() =~= line@.subrange(e + 1, n as int));
        e = e + 1;
    }
    assert(token_len(line@.subrange(e as int, n as int)) == 0);
    let tok = &line.as_slice()[j..e];
    assert(tok@ =~= t.subrange(0, token_len(t) as int));
    match parse_u64_chars(tok) {
        None => None,
        Some(v) => Some(if v > 0xffff_ffff_ffff_ffff / 1024 { 0xffff_ffff_ffff_ffff } else { v * 1024 }),
    }
}

/// The value after `key` at the start of `line`: the first
/// whitespace-separated token after it, as KiB, in bytes.
pub fn parse_kib_value(line: &str, key: &str) -> (r: Option<u64>)
    ensures
        r == spec_kib_value(line@, key@),
{
    let l = chars_of(line);
    let k = chars_of(key);
    kib_value_chars(&l, &k)
}

/// The figures of a status text: per line, `VmRSS:` or else `VmHWM:` with a
/// value sets that figure; the last such line wins; absent ones are 0.
pub open spec fn spec_proc_status_lines(lines: Seq<Seq<char>>) -> ProcMemory
    decreases lines.len(),
{
    if lines.len() == 0 {
        ProcMemory { rss_bytes: 0, hwm_bytes: 0 }
    } else {
        let m = spec_proc_status_lines(lines.drop_last());
        match spec_kib_value(lines.last(), vm_rss()) {
            Some(v) => ProcMemory { rss_bytes: v, ..m },
            None => match spec_kib_value(lines.last(), vm_hwm()) {
                Some(v) => ProcMemory { hwm_bytes: v, ..m },
                None => m,
            },
        }
    }
}

/// The key "VmRSS:".
pub open spec fn vm_rss() -> Seq<char> {
    seq!['V', 'm', 'R', 'S', 'S', ':']
}

/// The key "VmHWM:".
pub open spec fn vm_hwm() -> Seq<char> {
    seq!['V', 'm', 'H', 'W', 'M', ':']
}

/// Split text into lines as `str::lines` does.
fn split_lines(s: &Vec<char>) -> (r: Vec<Vec<char>>)
    ensures
        r@.map_values(|l: Vec<char>| l@) == text_lines(s@),
{
    let mut done: Vec<Vec<char>> = Vec::new();
    let mut cur: Vec<char> = Vec::new();
    let mut i: usize = 0;
    assert(s@.take(0) =~= Seq::<char>::empty());
    while i < s.len()
        invariant
            i <= s@.len(),
            (done@.map_values(|l: Vec<char>| l@), cur@) == lines_fold(s@.take(i as int)),
        decreases s@.len() - i,
    {
        assert(s@.take(i + 1).drop_last() =~= s@.take(i as int));
        let c = s[i];
        if c == '\n' {
            let n = cur.len();
            let mut line = cur;
            if n > 0 && line[n - 1] == '\r' {
                line.pop();
            }
            let ghost before = done@.map_values(|l: Vec<char>| l@);
            done.push(line);
            assert(done@.map_values(|l: Vec<char>| l@) =~= before.push(line@));
            cur = Vec::new();
            assert(cur@ =~= Seq::<char>::empty());
        } else {
            cur.push(c);
        }
        i = i + 1;
    }
    assert(s@.take(i as int) =~= s@);
    if cur.len() > 0 {
        let ghost before = done@.map_values(|l: Vec<char>| l@);
        done.push(cur);
        assert(done@.map_values(|l: Vec<char>| l@) =~= before.push(lines_fold(s@).1));
    }
    done
}

/// The resident-set figures of a status text (read with invalid UTF-8
/// replaced): the last `VmRSS:` and `VmHWM:` values, in bytes, or 0.
pub fn parse_proc_status(bytes: &[u8]) -> (m: ProcMemory)
    ensures
        m == spec_proc_status_lines(text_lines(utf8_lossy(bytes@))),
        valid_utf8(bytes@) ==> m == spec_proc_status_lines(text_lines(decode_utf8(bytes@))),
{
    let text = string_from_utf8_lossy(bytes);
    let chars = chars_of(text.as_str());
    let lines = split_lines(&chars);
    let rss_key = chars_of("VmRSS:");
    let hwm_key = chars_of("VmHWM:");
    proof {
        reveal_strlit("VmRSS:");
        reveal_strlit("VmHWM:");
        assert(rss_key@ =~= vm_rss());
        assert(hwm_key@ =~= vm_hwm());
    }
    let ghost ls = lines@.map_values(|l: Vec<char>| l@);
    let mut m = ProcMemory { rss_bytes: 0, hwm_bytes: 0 };
    let mut i: usize = 0;
    assert(ls.take(0) =~= Seq::<Seq<char>>::empty());
    while i < lines.len()
        invariant
            i <= lines@.len(),
            ls == lines@.map_values(|l: Vec<char>| l@),
            rss_key@ == vm_rss() && hwm_key@ == vm_hwm(),
            m == spec_proc_status_lines(ls.take(i as int)),
        decreases lines@.len() - i,
    {
        assert(ls.take(i + 1).drop_last() =~= ls.take(i as int));
        assert(ls.take(i + 1).last() == lines@[i as int]@);
        match kib_value_chars(&lines[i], &rss_key) {
            Some(v) => {
                m.rss_bytes = v;
            },
            None => match kib_value_chars(&lines[i], &hwm_key) {
                Some(v) => {
                    m.hwm_bytes = v;
                },
                None => {},
            },
        }
        i = i + 1;
    }
    assert(ls.take(i as int) =~= ls);
    m
}

} // verus!
