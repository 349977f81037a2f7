use vstd::prelude::*;
use vstd::string::*;

verus! {

/// The character that a backslash followed by `c` stands for, where `c` names
/// a recognised escape.
pub open spec fn escaped(c: char) -> Option<char> {
    if c == '0' {
        Some('\0')
    } else if c == 'a' {
        Some('\u{07}')
    } else if c == 'b' {
        Some('\u{08}')
    } else if c == 'v' {
        Some('\u{0B}')
    } else if c == 'f' {
        Some('\u{0C}')
    } else if c == 'n' {
        Some('\n')
    } else if c == 'r' {
        Some('\r')
    } else if c == 't' {
        Some('\t')
    } else if c == 'e' || c == 'E' {
        Some('\u{1B}')
    } else if c == '\\' {
        Some('\\')
    } else {
        None
    }
}

/// The text `s` with its backslash escapes decoded. An unknown escape is kept
/// as written, and a lone trailing backslash becomes `/`.
pub open spec fn unescaped(s: Seq<char>) -> Seq<char>
    decreases s.len(),
{
    if s.len() == 0 {
        seq![]
    } else if s[0] != '\\' {
        seq![s[0]] + unescaped(s.drop_first())
    } else if s.len() == 1 {
        seq!['/']
    } else {
        let head = match escaped(s[1]) {
            Some(c) => seq![c],
            None => seq!['\\', s[1]],
        };
        head + unescaped(s.subrange(2, s.len() as int))
    }
}

/// Relies on String::push: the character is appended to the string.
pub assume_specification[ String::push ](s: &mut String, ch: char)
    ensures
        final(s)@ == old(s)@.push(ch),
;

fn escape_of(c: char) -> (r: Option<char>)
    ensures
        r == escaped(c),
{
    match c {
        '0' => Some('\0'),
        'a' => Some('\u{07}'),
        'b' => Some('\u{08}'),
        'v' => Some('\u{0B}'),
        'f' => Some('\u{0C}'),
        'n' => Some('\n'),
        'r' => Some('\r'),
        't' => Some('\t'),
        'e' | 'E' => Some('\u{1B}'),
        '\\' => Some('\\'),
        _ => None,
    }
}

proof fn lemma_unescaped_split(s: Seq<char>, i: int)
    requires
        0 <= i < s.len(),
    ensures
        s[i] != '\\' ==> unescaped(s.subrange(i, s.len() as int)) == seq![s[i]]
            + unescaped(s.subrange(i + 1, s.len() as int)),
        s[i] == '\\' && i + 1 == s.len() ==> unescaped(s.subrange(i, s.len() as int))
            == seq!['/'],
        s[i] == '\\' && i + 1 < s.len() ==> unescaped(s.subrange(i, s.len() as int)) == (
        match escaped(s[i + 1]) {
            Some(c) => seq![c],
            None => seq!['\\', s[i + 1]],
        }) + unescaped(s.subrange(i + 2, s.len() as int)),
{
    let t = s.subrange(i, s.len() as int);
    assert(t.drop_first() =~= s.subrange(i + 1, s.len() as int));
    if i + 2 <= s.len() {
        assert(t.subrange(2, t.len() as int) =~= s.subrange(i + 2, s.len() as int));
    }
}

/// Decodes the backslash escapes of a delimiter given as text: `\0`, `\a`,
/// `\b`, `\v`, `\f`, `\n`, `\r`, `\t`, `\e` or `\E`, and `\\`. An unknown escape
/// is kept as written, and a lone trailing backslash becomes `/`.
pub fn unescape_delimiter(char_str: &str) -> (res: String)
    ensures
        res@ == unescaped(char_str@),
{
    let n = char_str.unicode_len();
    let mut res = String::new();
    let mut i: usize = 0;
    proof {
        assert(char_str@.subrange(0, n as int) =~= char_str@);
        assert(res@ + unescaped(char_str@) =~= unescaped(char_str@));
    }
    while i < n
        invariant
            n == char_str@.len(),
            i <= n,
            res@ + unescaped(char_str@.subrange(i as int, n as int)) == unescaped(char_str@),
        decreases n - i,
    {
        proof {
            lemma_unescaped_split(char_str@, i as int);
        }
        let c = char_str.get_char(i);
        if c != '\\' {
            res.push(c);
            i = i + 1;
        } else if i + 1 == n {
            res.push('/');
            i = i + 1;
        } else {
            let next = char_str.get_char(i + 1);
            match escape_of(next) {
                Some(e) => res.push(e),
                None => {
                    res.push('\\');
                    res.push(next);
                },
            }
            i = i + 2;
        }
        proof {
            assert(res@ + unescaped(char_str@.subrange(i as int, n as int)) =~= unescaped(char_str@));
        }
    }
    proof {
        assert(char_str@.subrange(n as int, n as int) =~= Seq::<char>::empty());
    }
    res
}

} // verus!
