use vstd::prelude::*;
use vstd::string::*;

verus! {

/// True for the ten ASCII decimal digits.
pub open spec fn is_digit(c: char) -> bool {
    '0' <= c && c <= '9'
}

/// Where the run of digits starting at `i` ends, allowing one decimal point
/// (or none, once `dot` has been seen).
pub open spec fn numeric_run_end(s: Seq<char>, i: int, dot: bool) -> int
    decreases s.len() - i,
{
    if i < 0 || i >= s.len() {
        i
    } else if is_digit(s[i]) {
        numeric_run_end(s, i + 1, dot)
    } else if s[i] == '.' && !dot {
        numeric_run_end(s, i + 1, true)
    } else {
        i
    }
}

/// Length of the longest prefix of `s` made of digits with at most one `.`.
pub open spec fn numeric_prefix_len(s: Seq<char>) -> int {
    numeric_run_end(s, 0, false)
}

/// The numeric prefix lies within the text.
pub proof fn lemma_numeric_prefix_bounds(s: Seq<char>)
    ensures
        0 <= numeric_prefix_len(s) <= s.len(),
{
    lemma_numeric_run_bounds(s, 0, false);
}

proof fn lemma_numeric_run_chars(s: Seq<char>, i: int, dot: bool)
    requires
        0 <= i <= s.len(),
    ensures
        forall|k: int| i <= k < numeric_run_end(s, i, dot) ==> is_digit(#[trigger] s[k]) || s[k] == '.',
        dot ==> forall|k: int| i <= k < numeric_run_end(s, i, dot) ==> #[trigger] s[k] != '.',
        forall|k1: int, k2: int| i <= k1 < k2 < numeric_run_end(s, i, dot) ==> !(#[trigger] s[k1] == '.'
            && #[trigger] s[k2] == '.'),
    decreases s.len() - i,
{
    if i < s.len() {
        if is_digit(s[i]) {
            lemma_numeric_run_chars(s, i + 1, dot);
        } else if s[i] == '.' && !dot {
            lemma_numeric_run_chars(s, i + 1, true);
        }
    }
}

/// The numeric prefix is digits with at most one `.`.
pub proof fn lemma_numeric_prefix_is_decimal(s: Seq<char>)
    ensures
        crate::ieee::is_decimal_text(s.subrange(0, numeric_prefix_len(s))),
{
    lemma_numeric_run_bounds(s, 0, false);
    lemma_numeric_run_chars(s, 0, false);
    let p = s.subrange(0, numeric_prefix_len(s));
    assert forall|k1: int, k2: int| 0 <= k1 < k2 < p.len() implies !(#[trigger] p[k1] == '.' && #[trigger] p[k2]
        == '.') by {
        assert(p[k1] == s[k1] && p[k2] == s[k2]);
    }
}

proof fn lemma_numeric_run_bounds(s: Seq<char>, i: int, dot: bool)
    requires
        0 <= i <= s.len(),
    ensures
        i <= numeric_run_end(s, i, dot) <= s.len(),
    decreases s.len() - i,
{
    if i < s.len() {
        if is_digit(s[i]) {
            lemma_numeric_run_bounds(s, i + 1, dot);
        } else if s[i] == '.' && !dot {
            lemma_numeric_run_bounds(s, i + 1, true);
        }
    }
}

/// `n` spaces.
pub open spec fn spaces(n: int) -> Seq<char> {
    Seq::new(n as nat, |i: int| ' ')
}

/// The label `text`, padded with spaces to `min_length` bytes and, when
/// `enabled_ansi` holds, wrapped in the ANSI escape codes of `style`.
pub open spec fn escaped_label(style: Seq<char>, text: &str, min_length: int, enabled_ansi: bool) -> Seq<char> {
    let pad = if (text.len() as int) < min_length {
        min_length - text.len()
    } else {
        0
    };
    let body = text@ + spaces(pad);
    if enabled_ansi {
        "\x1b["@ + style + "m"@ + body + "\x1b[0m"@
    } else {
        body
    }
}

/// Text helpers shared by the interpreter's stages.
pub struct Utils {}

impl Utils {
    /// `text` padded to `min_length` bytes and, when `enabled_ansi` holds,
    /// coloured with the ANSI select-graphic-rendition code `style`.
    pub fn ansi_escape_text(style: &str, text: &str, min_length: usize, enabled_ansi: bool) -> (r: String)
        ensures
            r@ == escaped_label(style@, text, min_length as int, enabled_ansi),
    {
        let mut res = String::new();
        if enabled_ansi {
            res.append("\x1b[");
            res.append(style);
            res.append("m");
        }
        let ghost start = res@;
        res.append(text);
        let tl = text.len();
        let mut k = tl;
        while k < min_length
            invariant
                tl == text.len(),
                tl <= k,
                k <= min_length || k == tl,
                res@ == start + text@ + spaces(k - tl),
            decreases min_length - k,
        {
            res.append(" ");
            proof {
                reveal_strlit(" ");
            }
            assert(" "@ =~= seq![' ']);
            assert(spaces(k + 1 - tl) =~= spaces(k - tl) + " "@);
            k = k + 1;
        }
        assert(res@ =~= start + (text@ + spaces(if tl < min_length { min_length - tl } else { 0 })));
        if enabled_ansi {
            res.append("\x1b[0m");
        }
        res
    }

    /// The first character of `s` and what follows it; `'\0'` and `s` itself
    /// when `s` is empty.
    pub fn next_char(s: &str) -> (r: (char, &str))
        ensures
            s@.len() == 0 ==> r.0 == '\0' && r.1@ == s@,
            s@.len() > 0 ==> r.0 == s@[0] && r.1@ == s@.drop_first(),
    {
        let n = s.unicode_len();
        if n == 0 {
            ('\0', s)
        } else {
            let c = s.get_char(0);
            let rest = s.substring_char(1, n);
            assert(rest@ =~= s@.drop_first());
            (c, rest)
        }
    }

    /// Length, in characters, of the leading number of `input`: decimal digits
    /// with at most one decimal point.
    pub fn numeric_part_end(input: &str) -> (r: usize)
        ensures
            r == numeric_prefix_len(input@),
    {
        let n = input.unicode_len();
        let mut i: usize = 0;
        let mut period = false;
        proof {
            lemma_numeric_run_bounds(input@, 0, false);
        }
        while i < n
            invariant
                n == input@.len(),
                0 <= i <= n,
                numeric_run_end(input@, i as int, period) == numeric_prefix_len(input@),
            decreases n - i,
        {
            let c = input.get_char(i);
            if '0' <= c && c <= '9' {
            } else if c == '.' && !period {
                period = true;
            } else {
                return i;
            }
            i = i + 1;
        }
        i
    }
}

} // verus!
