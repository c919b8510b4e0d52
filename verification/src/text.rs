use vstd::prelude::*;

verus! {

/// `String::push` appends one character.
pub assume_specification[ String::push ](s: &mut String, c: char)
    ensures
        final(s)@ == old(s)@.push(c),
;

/// The character that writes the digit `d`; above nine the capital letters
/// follow, so that fifteen is `F`.
pub open spec fn digit(d: int) -> char {
    if d < 10 {
        ((48 + d) as u8) as char
    } else {
        ((55 + d) as u8) as char
    }
}

/// The decimal numeral of `n`, without leading zeros.
pub open spec fn decimal(n: nat) -> Seq<char>
    decreases n,
{
    if n < 10 {
        seq![digit(n as int)]
    } else {
        decimal(n / 10).push(digit((n % 10) as int))
    }
}

/// Two capital hexadecimal digits for each byte, in order.
pub open spec fn hex_upper(bytes: Seq<u8>) -> Seq<char>
    decreases bytes.len(),
{
    if bytes.len() == 0 {
        Seq::empty()
    } else {
        hex_upper(bytes.drop_last()).push(digit(bytes.last() as int / 16)).push(
            digit(bytes.last() as int % 16),
        )
    }
}

/// Whether `s` begins with the placeholder `{name}`.
pub open spec fn at_placeholder(s: Seq<char>, name: char) -> bool {
    s.len() >= 3 && s[0] == '{' && s[1] == name && s[2] == '}'
}

/// `pattern` with every `{z}` replaced by `z`, every `{x}` by `x` and every
/// `{y}` by `y`, read from the left; all other text stays.
pub open spec fn expand(pattern: Seq<char>, z: Seq<char>, x: Seq<char>, y: Seq<char>) -> Seq<char>
    decreases pattern.len(),
{
    if pattern.len() == 0 {
        Seq::empty()
    } else if at_placeholder(pattern, 'z') {
        z + expand(pattern.skip(3), z, x, y)
    } else if at_placeholder(pattern, 'x') {
        x + expand(pattern.skip(3), z, x, y)
    } else if at_placeholder(pattern, 'y') {
        y + expand(pattern.skip(3), z, x, y)
    } else {
        seq![pattern[0]] + expand(pattern.skip(1), z, x, y)
    }
}

/// Index of the last `c` in `s`, or -1 where `s` holds none.
pub open spec fn last_index_of(s: Seq<char>, c: char) -> int
    decreases s.len(),
{
    if s.len() == 0 {
        -1
    } else if s.last() == c {
        s.len() - 1
    } else {
        last_index_of(s.drop_last(), c)
    }
}

/// The last segment of `path`: what follows its last `/`, or all of it.
pub open spec fn file_name(path: Seq<char>) -> Seq<char> {
    path.skip(last_index_of(path, '/') + 1)
}

/// The extension of `path`: what follows the last `.` of its last segment.
/// A segment without a `.`, or whose only `.` is its first character, has
/// none.
pub open spec fn extension(path: Seq<char>) -> Option<Seq<char>> {
    let name = file_name(path);
    let dot = last_index_of(name, '.');
    if dot <= 0 {
        None
    } else {
        Some(name.skip(dot + 1))
    }
}

/// An extension ends its path, and a `.` stands before it.
pub proof fn lemma_extension_is_suffix(path: Seq<char>)
    ensures
        extension(path) matches Some(ext) ==> ext.len() + 1 <= path.len() && path.skip(
            path.len() - ext.len(),
        ) == ext && path[path.len() - ext.len() - 1] == '.',
{
    let start = last_index_of(path, '/') + 1;
    lemma_last_index(path, '/');
    let name = path.skip(start);
    lemma_last_index(name, '.');
    let dot = last_index_of(name, '.');
    if dot > 0 {
        assert(name.skip(dot + 1) =~= path.skip(path.len() - (name.len() - dot - 1)));
    }
}

/// The last `c` of `s` is a `c`, and lies within `s`.
pub proof fn lemma_last_index(s: Seq<char>, c: char)
    ensures
        -1 <= last_index_of(s, c) < s.len(),
        last_index_of(s, c) >= 0 ==> s[last_index_of(s, c)] == c,
    decreases s.len(),
{
    if s.len() > 0 && s.last() != c {
        lemma_last_index(s.drop_last(), c);
    }
}

/// The character of a digit below sixteen.
pub fn digit_char(d: u8) -> (c: char)
    requires
        d < 16,
    ensures
        c == digit(d as int),
{
    if d < 10 {
        (48 + d) as char
    } else {
        (55 + d) as char
    }
}

/// Appends the decimal numeral of `n` to `out`.
pub fn push_decimal(out: &mut String, n: u32)
    ensures
        final(out)@ == old(out)@ + decimal(n as nat),
    decreases n,
{
    if n >= 10 {
        push_decimal(out, n / 10);
    }
    out.push(digit_char((n % 10) as u8));
}

/// Writes `bytes` as capital hexadecimal digits, two for each byte.
pub fn to_hex_upper(bytes: &Vec<u8>) -> (text: String)
    ensures
        text@ == hex_upper(bytes@),
{
    let mut text = String::new();
    let mut i: usize = 0;
    while i < bytes.len()
        invariant
            i <= bytes.len(),
            text@ == hex_upper(bytes@.take(i as int)),
        decreases bytes.len() - i,
    {
        let b = bytes[i];
        proof {
            assert(bytes@.take(i + 1).drop_last() =~= bytes@.take(i as int));
        }
        text.push(digit_char(b / 16));
        text.push(digit_char(b % 16));
        i += 1;
    }
    proof {
        assert(bytes@.take(i as int) =~= bytes@);
    }
    text
}

/// Fills the placeholders `{z}`, `{x}` and `{y}` of `pattern` with the
/// decimal numerals of `zoom`, `x` and `y`.
pub fn fill_placeholders(pattern: &str, zoom: u8, x: u32, y: u32) -> (text: String)
    ensures
        text@ == expand(pattern@, decimal(zoom as nat), decimal(x as nat), decimal(y as nat)),
{
    let n = pattern.unicode_len();
    let ghost zs = decimal(zoom as nat);
    let ghost xs = decimal(x as nat);
    let ghost ys = decimal(y as nat);
    let mut text = String::new();
    let mut i: usize = 0;
    proof {
        assert(pattern@.skip(0) =~= pattern@);
    }
    while i < n
        invariant
            i <= n,
            n == pattern@.len(),
            zs == decimal(zoom as nat),
            xs == decimal(x as nat),
            ys == decimal(y as nat),
            expand(pattern@, zs, xs, ys) == text@ + expand(pattern@.skip(i as int), zs, xs, ys),
        decreases n - i,
    {
        let ghost rest = pattern@.skip(i as int);
        let ghost before = text@;
        let c = pattern.get_char(i);
        let mut name = ' ';
        if c == '{' && n - i >= 3 {
            if pattern.get_char(i + 2) == '}' {
                name = pattern.get_char(i + 1);
            }
        }
        if name == 'z' || name == 'x' || name == 'y' {
            if name == 'z' {
                push_decimal(&mut text, zoom as u32);
            } else if name == 'x' {
                push_decimal(&mut text, x);
            } else {
                push_decimal(&mut text, y);
            }
            proof {
                assert(at_placeholder(rest, name));
                assert(rest.skip(3) =~= pattern@.skip(i + 3));
                let filled = if name == 'z' {
                    zs
                } else if name == 'x' {
                    xs
                } else {
                    ys
                };
                assert(before + (filled + expand(rest.skip(3), zs, xs, ys)) =~= (before + filled)
                    + expand(rest.skip(3), zs, xs, ys));
            }
            i += 3;
        } else {
            text.push(c);
            proof {
                assert(!at_placeholder(rest, 'z'));
                assert(!at_placeholder(rest, 'x'));
                assert(!at_placeholder(rest, 'y'));
                assert(rest.skip(1) =~= pattern@.skip(i + 1));
                assert(before + (seq![c] + expand(rest.skip(1), zs, xs, ys)) =~= before.push(c)
                    + expand(rest.skip(1), zs, xs, ys));
            }
            i += 1;
        }
    }
    proof {
        assert(text@ + Seq::<char>::empty() =~= text@);
    }
    text
}

/// Finds the last `c` among the first `end` characters of `s`.
pub fn rfind(s: &str, end: usize, c: char) -> (found: Option<usize>)
    requires
        end <= s@.len(),
    ensures
        found matches Some(i) ==> i < end && i == last_index_of(s@.take(end as int), c),
        found.is_none() ==> last_index_of(s@.take(end as int), c) == -1,
{
    let mut j: usize = end;
    while j > 0
        invariant
            j <= end <= s@.len(),
            last_index_of(s@.take(end as int), c) == last_index_of(s@.take(j as int), c),
        decreases j,
    {
        proof {
            assert(s@.take(j as int).drop_last() =~= s@.take(j - 1));
        }
        if s.get_char(j - 1) == c {
            return Some(j - 1);
        }
        j -= 1;
    }
    None
}

/// The extension of `path`, as [`extension`] defines it.
pub fn extension_of(path: &str) -> (ext: Option<String>)
    ensures
        ext matches Some(e) ==> extension(path@) == Some(e@),
        ext.is_none() ==> extension(path@).is_none(),
{
    let n = path.unicode_len();
    proof {
        assert(path@.take(n as int) =~= path@);
    }
    let start: usize = match rfind(path, n, '/') {
        Some(slash) => slash + 1,
        None => 0,
    };
    let name = path.substring_char(start, n);
    proof {
        assert(name@ =~= file_name(path@));
        assert(name@.take(name@.len() as int) =~= name@);
    }
    let m = name.unicode_len();
    match rfind(name, m, '.') {
        Some(dot) => {
            if dot == 0 {
                None
            } else {
                let tail = name.substring_char(dot + 1, m);
                proof {
                    assert(tail@ =~= name@.skip(dot + 1));
                }
                Some(tail.to_owned())
            }
        },
        None => None,
    }
}

} // verus!
