//! Shard shorthand: a piece of a dotted path of the form
//! `<width>:<depth>#<text>`, which stands for up to `depth` components of
//! `width` characters each, taken from the front of the text, followed by
//! the text itself.

use vstd::prelude::*;

verus! {

/// A decimal digit.
pub open spec fn is_digit(c: char) -> bool {
    '0' <= c && c <= '9'
}

/// The number that a decimal digit stands for.
pub open spec fn digit_value(c: char) -> nat {
    (c as u32 - '0' as u32) as nat
}

/// The first place at or after `from` where the text holds `c`, or the
/// text's length where there is none.
pub open spec fn find(text: Seq<char>, c: char, from: int) -> int
    decreases text.len() - from,
{
    if from >= text.len() {
        text.len() as int
    } else if text[from] == c {
        from
    } else {
        find(text, c, from + 1)
    }
}

/// The first place at or after `from` where the text holds something other
/// than `c`, or the text's length where there is none.
pub open spec fn pass(text: Seq<char>, c: char, from: int) -> int
    decreases text.len() - from,
{
    if from >= text.len() {
        text.len() as int
    } else if text[from] != c {
        from
    } else {
        pass(text, c, from + 1)
    }
}

/// Every character from `from` up to `to` is a decimal digit.
pub open spec fn all_digits(text: Seq<char>, from: int, to: int) -> bool {
    forall|i: int| from <= i < to ==> is_digit(#[trigger] text[i])
}

/// The number read so far, continued by the digits from `from` up to `to`.
pub open spec fn decimal(text: Seq<char>, from: int, to: int, so_far: nat) -> nat
    decreases to - from,
{
    if from >= to {
        so_far
    } else {
        decimal(text, from + 1, to, so_far * 10 + digit_value(text[from]))
    }
}

/// The 32-bit number that the characters from `from` up to `to` are read
/// as: an optional plus sign, then one decimal digit or more, nothing else,
/// and a value that fits.
pub open spec fn number(text: Seq<char>, from: int, to: int) -> Option<u32> {
    let start = if from < to && text[from] == '+' {
        from + 1
    } else {
        from
    };
    if start < to && all_digits(text, start, to) && decimal(text, start, to, 0) <= u32::MAX {
        Some(decimal(text, start, to, 0) as u32)
    } else {
        None
    }
}

/// The width and depth that a piece asks for, where it is shard shorthand:
/// it starts with a digit, holds a shard marker, and before the first marker
/// a colon with a number on each side. Colons after the first are passed
/// over.
pub open spec fn shard_strategy(piece: Seq<char>) -> Option<(u32, u32)> {
    let marker = find(piece, '#', 0);
    let colon = find(piece, ':', 0);
    if piece.len() > 0 && is_digit(piece[0]) && colon < marker && marker < piece.len() {
        let width = number(piece, 0, colon);
        let depth = number(piece, pass(piece, ':', colon), marker);
        if width is Some && depth is Some {
            Some((width->Some_0, depth->Some_0))
        } else {
            None
        }
    } else {
        None
    }
}

/// The text of a piece of shard shorthand: what follows its first run of
/// shard markers.
pub open spec fn shard_text(piece: Seq<char>) -> Seq<char> {
    piece.skip(pass(piece, '#', find(piece, '#', 0)))
}

/// How many shards a text gives: as many whole ones as it holds, and no more
/// than the depth.
pub open spec fn shard_count(width: u32, depth: u32, length: nat) -> nat {
    if width == 0 {
        0
    } else if length / (width as nat) < depth {
        length / (width as nat)
    } else {
        depth as nat
    }
}

/// The shards of a text: its first characters in runs of `width`.
pub open spec fn shards(width: u32, depth: u32, text: Seq<char>) -> Seq<Seq<char>> {
    Seq::new(
        shard_count(width, depth, text.len()),
        |k: int| text.subrange(k * width, (k + 1) * width),
    )
}

/// The segments that a piece of a dotted path stands for: itself, or, where
/// it is shard shorthand, the shards of its text and then the text.
pub open spec fn piece_segments(piece: Seq<char>) -> Seq<Seq<char>> {
    match shard_strategy(piece) {
        Some((width, depth)) => shards(width, depth, shard_text(piece)).push(shard_text(piece)),
        None => seq![piece],
    }
}

/// The sizes of an expansion can be computed in 32 bits: the width in bytes,
/// at four bytes to the character, and the width in bytes times the depth.
pub open spec fn shard_fits(width: u32, depth: u32) -> bool {
    width * 4 <= u32::MAX && width * 4 * depth <= u32::MAX
}

/// A piece is not shard shorthand, or it is and its expansion fits.
pub open spec fn piece_fits(piece: Seq<char>) -> bool {
    match shard_strategy(piece) {
        Some((width, depth)) => shard_fits(width, depth),
        None => true,
    }
}

/// A number read so far only grows as more digits are read.
pub proof fn lemma_decimal_grows(text: Seq<char>, from: int, to: int, so_far: nat)
    ensures
        decimal(text, from, to, so_far) >= so_far,
    decreases to - from,
{
    if from < to {
        lemma_decimal_grows(text, from + 1, to, so_far * 10 + digit_value(text[from]));
    }
}

/// A run of `c` ends at or before any later place that holds something else.
pub proof fn lemma_pass_stops(text: Seq<char>, c: char, from: int, at: int)
    requires
        0 <= from <= at < text.len(),
        text[at] != c,
    ensures
        from <= pass(text, c, from) <= at,
    decreases at - from,
{
    if from < at && text[from] == c {
        lemma_pass_stops(text, c, from + 1, at);
    }
}

/// Finds the first place at or after `from` where the text holds `c`.
fn find_from(text: &Vec<char>, c: char, from: usize) -> (at: usize)
    requires
        from <= text.len(),
    ensures
        at == find(text@, c, from as int),
        from <= at <= text.len(),
        at < text.len() ==> text[at as int] == c,
{
    let mut at = from;
    while at < text.len() && text[at] != c
        invariant
            from <= at <= text.len(),
            find(text@, c, from as int) == find(text@, c, at as int),
        decreases text.len() - at,
    {
        at += 1;
    }
    at
}

/// Finds the first place at or after `from` where the text holds something
/// other than `c`.
fn pass_from(text: &Vec<char>, c: char, from: usize) -> (at: usize)
    requires
        from <= text.len(),
    ensures
        at == pass(text@, c, from as int),
        from <= at <= text.len(),
{
    let mut at = from;
    while at < text.len() && text[at] == c
        invariant
            from <= at <= text.len(),
            pass(text@, c, from as int) == pass(text@, c, at as int),
        decreases text.len() - at,
    {
        at += 1;
    }
    at
}

/// Reads the characters from `from` up to `to` as a 32-bit number.
fn number_of(text: &Vec<char>, from: usize, to: usize) -> (read: Option<u32>)
    requires
        from <= to <= text.len(),
    ensures
        read == number(text@, from as int, to as int),
{
    let mut i = from;
    if i < to && text[i] == '+' {
        i += 1;
    }
    if i >= to {
        return None;
    }
    let ghost start = i as int;
    let mut value: u64 = 0;
    while i < to
        invariant
            start <= i <= to <= text.len(),
            start < to,
            start == if from < to && text@[from as int] == '+' {
                from + 1
            } else {
                from as int
            },
            all_digits(text@, start, i as int),
            value <= u32::MAX,
            decimal(text@, start, to as int, 0) == decimal(text@, i as int, to as int, value as nat),
        decreases to - i,
    {
        let c = text[i];
        if !('0' <= c && c <= '9') {
            return None;
        }
        let digit = (c as u32 - '0' as u32) as u64;
        value = value * 10 + digit;
        if value > u32::MAX as u64 {
            proof {
                lemma_decimal_grows(text@, i + 1, to as int, value as nat);
            }
            return None;
        }
        i += 1;
    }
    Some(value as u32)
}

/// Reads the width and depth that a piece asks for, where it is shard
/// shorthand.
fn strategy_of(piece: &Vec<char>) -> (strategy: Option<(u32, u32)>)
    ensures
        strategy == shard_strategy(piece@),
{
    if piece.len() == 0 {
        return None;
    }
    let first = piece[0];
    if !('0' <= first && first <= '9') {
        return None;
    }
    let marker = find_from(piece, '#', 0);
    let colon = find_from(piece, ':', 0);
    if !(colon < marker && marker < piece.len()) {
        return None;
    }
    let width = number_of(piece, 0, colon);
    let after = pass_from(piece, ':', colon);
    proof {
        lemma_pass_stops(piece@, ':', colon as int, marker as int);
    }
    let depth = number_of(piece, after, marker);
    match (width, depth) {
        (Some(width), Some(depth)) => Some((width, depth)),
        _ => None,
    }
}

/// Tells whether a piece is no shard shorthand, or is and its expansion
/// fits.
pub fn fits(piece: &Vec<char>) -> (fitting: bool)
    ensures
        fitting == piece_fits(piece@),
{
    match strategy_of(piece) {
        None => true,
        Some((width, depth)) => {
            let bytes = width as u64 * 4;
            if bytes > u32::MAX as u64 {
                return false;
            }
            assert(bytes * (depth as u64) <= 0xffff_ffff * 0xffff_ffff) by (nonlinear_arith)
                requires
                    bytes <= 0xffff_ffff,
                    depth <= 0xffff_ffff,
            ;
            bytes * (depth as u64) <= u32::MAX as u64
        },
    }
}

} // verus!
