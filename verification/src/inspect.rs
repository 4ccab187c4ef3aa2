//! The texts of the inspect panel, with numbers written in decimal.

use vstd::prelude::*;
use vstd::string::*;

use crate::dungeon::TileKind;
use crate::snapshot::InspectInfo;

verus! {

pub open spec fn digit_char(d: int) -> char {
    if d == 0 {
        '0'
    } else if d == 1 {
        '1'
    } else if d == 2 {
        '2'
    } else if d == 3 {
        '3'
    } else if d == 4 {
        '4'
    } else if d == 5 {
        '5'
    } else if d == 6 {
        '6'
    } else if d == 7 {
        '7'
    } else if d == 8 {
        '8'
    } else {
        '9'
    }
}

/// The decimal digits of `n`, without leading zeros ("0" for zero).
pub open spec fn decimal(n: nat) -> Seq<char>
    decreases n,
{
    if n < 10 {
        seq![digit_char(n as int)]
    } else {
        decimal(n / 10).push(digit_char((n % 10) as int))
    }
}

/// The number that the decimal digits `s` stand for.
pub open spec fn read_decimal(s: Seq<char>) -> int
    decreases s.len(),
{
    if s.len() == 0 {
        0
    } else {
        read_decimal(s.drop_last()) * 10 + (s.last() as int - '0' as int)
    }
}

/// Each digit is its own character: digit `d` is the character `'0' + d`, so
/// no two digits share one.
pub proof fn law_digit_chars(d: int, e: int)
    requires
        0 <= d <= 9,
        0 <= e <= 9,
    ensures
        digit_char(d) as int == '0' as int + d,
        d != e ==> digit_char(d) != digit_char(e),
{
}

/// The text of a number is its decimal writing: it is made of the characters
/// '0' to '9', it reads back as the number, and it starts with '0' only when
/// the number is zero (and is then just "0").
pub proof fn law_decimal_reads_back(n: nat)
    ensures
        read_decimal(decimal(n)) == n,
        forall|i: int| 0 <= i < decimal(n).len() ==> '0' <= #[trigger] decimal(n)[i] <= '9',
        decimal(n).len() >= 1,
        decimal(n)[0] == '0' ==> n == 0 && decimal(n).len() == 1,
    decreases n,
{
    if n < 10 {
        law_digit_chars(n as int, 0);
        assert(decimal(n).drop_last() =~= Seq::<char>::empty());
        assert(read_decimal(Seq::<char>::empty()) == 0);
        assert(read_decimal(decimal(n)) == read_decimal(decimal(n).drop_last()) * 10 + (decimal(n).last() as int
            - '0' as int));
    } else {
        let q = (n / 10) as nat;
        let r = (n % 10) as int;
        law_decimal_reads_back(q);
        law_digit_chars(r, 0);
        let s = decimal(n);
        assert(s == decimal(q).push(digit_char(r)));
        assert(s.drop_last() =~= decimal(q));
        assert(read_decimal(s) == read_decimal(decimal(q)) * 10 + (s.last() as int - '0' as int));
        assert(n == q * 10 + r);
        assert(s[0] == decimal(q)[0]);
        if decimal(q)[0] == '0' {
            assert(q == 0);
        }
        assert forall|i: int| 0 <= i < s.len() implies '0' <= #[trigger] s[i] <= '9' by {
            if i < decimal(q).len() {
                assert(s[i] == decimal(q)[i]);
            }
        }
    }
}

/// `i` written in decimal, with a leading '-' when negative.
pub open spec fn int_text(i: int) -> Seq<char> {
    if i < 0 {
        seq!['-'] + decimal((-i) as nat)
    } else {
        decimal(i as nat)
    }
}

fn digit_str(d: u64) -> (r: &'static str)
    requires
        d < 10,
    ensures
        r@ == seq![digit_char(d as int)],
{
    proof {
        reveal_strlit("0");
        reveal_strlit("1");
        reveal_strlit("2");
        reveal_strlit("3");
        reveal_strlit("4");
        reveal_strlit("5");
        reveal_strlit("6");
        reveal_strlit("7");
        reveal_strlit("8");
        reveal_strlit("9");
    }
    match d {
        0 => "0",
        1 => "1",
        2 => "2",
        3 => "3",
        4 => "4",
        5 => "5",
        6 => "6",
        7 => "7",
        8 => "8",
        _ => "9",
    }
}

/// Appends the decimal digits of `n` to `s`.
fn push_decimal(s: &mut String, n: u64)
    ensures
        final(s)@ == old(s)@ + decimal(n as nat),
    decreases n,
{
    if n >= 10 {
        push_decimal(s, n / 10);
        s.append(digit_str(n % 10));
        proof {
            assert(decimal(n as nat) == decimal((n / 10) as nat).push(digit_char((n % 10) as int)));
        }
    } else {
        s.append(digit_str(n));
    }
}

/// Appends `i` in decimal to `s`.
fn push_int(s: &mut String, i: i64)
    ensures
        final(s)@ == old(s)@ + int_text(i as int),
{
    if i < 0 {
        proof {
            reveal_strlit("-");
        }
        s.append("-");
        let m: u64 = if i == i64::MIN {
            0x8000_0000_0000_0000u64
        } else {
            (-i) as u64
        };
        push_decimal(s, m);
    } else {
        push_decimal(s, i as u64);
    }
}

fn text(t: &str) -> (r: String)
    ensures
        r@ == t@,
{
    String::from_str(t)
}

/// "HP: {hp} / {max_hp}"
fn hp_line(hp: i32, max_hp: i32) -> (r: String)
    ensures
        r@ == "HP: "@ + int_text(hp as int) + " / "@ + int_text(max_hp as int),
{
    let mut s = text("HP: ");
    push_int(&mut s, hp as i64);
    s.append(" / ");
    push_int(&mut s, max_hp as i64);
    s
}

/// The inspect panel for the hero.
pub fn hero_inspect(hp: i32, max_hp: i32, rat_tails: u32) -> (r: InspectInfo)
    ensures
        r.title@ == "Hero"@,
        r.lines@.len() == 3,
        r.lines@[0]@ == "HP: "@ + int_text(hp as int) + " / "@ + int_text(max_hp as int),
        r.lines@[1]@ == "Weapon: Dagger"@,
        r.lines@[2]@ == "Rat Tails: "@ + decimal(rat_tails as nat),
{
    let mut lines: Vec<String> = Vec::new();
    lines.push(hp_line(hp, max_hp));
    lines.push(text("Weapon: Dagger"));
    let mut tails = text("Rat Tails: ");
    push_decimal(&mut tails, rat_tails as u64);
    lines.push(tails);
    InspectInfo { title: text("Hero"), lines }
}

/// The inspect panel for a rat, alive or dead.
pub fn rat_inspect(alive: bool, hp: i32, max_hp: i32) -> (r: InspectInfo)
    ensures
        r.title@ == if alive {
            "Rat"@
        } else {
            "Dead Rat"@
        },
        r.lines@.len() == 4,
        r.lines@[0]@ == "HP: "@ + int_text(hp as int) + " / "@ + int_text(max_hp as int),
        r.lines@[1]@ == "Attack: 1"@,
        r.lines@[2]@ == "Hostile."@,
        r.lines@[3]@ == "Drops: Rat Tail"@,
{
    let title = if alive {
        text("Rat")
    } else {
        text("Dead Rat")
    };
    let mut lines: Vec<String> = Vec::new();
    lines.push(hp_line(hp, max_hp));
    lines.push(text("Attack: 1"));
    lines.push(text("Hostile."));
    lines.push(text("Drops: Rat Tail"));
    InspectInfo { title, lines }
}

/// The inspect panel for a rat tail lying on the ground.
pub fn item_inspect(count: u32) -> (r: InspectInfo)
    ensures
        r.title@ == "Rat Tail"@,
        r.lines@.len() == 2,
        r.lines@[0]@ == "A severed rat tail."@,
        r.lines@[1]@ == "Count: "@ + decimal(count as nat),
{
    let mut lines: Vec<String> = Vec::new();
    lines.push(text("A severed rat tail."));
    let mut c = text("Count: ");
    push_decimal(&mut c, count as u64);
    lines.push(c);
    InspectInfo { title: text("Rat Tail"), lines }
}

/// The inspect panel for a wall or floor tile.
pub fn tile_inspect(kind: TileKind) -> (r: InspectInfo)
    ensures
        kind == TileKind::Wall ==> {
            &&& r.title@ == "Wall"@
            &&& r.lines@.len() == 2
            &&& r.lines@[0]@ == "A rough dungeon wall."@
            &&& r.lines@[1]@ == "HP: 10"@
        },
        kind == TileKind::Floor ==> {
            &&& r.title@ == "Floor"@
            &&& r.lines@.len() == 1
            &&& r.lines@[0]@ == "Worn stone floor."@
        },
{
    let mut lines: Vec<String> = Vec::new();
    match kind {
        TileKind::Wall => {
            lines.push(text("A rough dungeon wall."));
            lines.push(text("HP: 10"));
            InspectInfo { title: text("Wall"), lines }
        },
        TileKind::Floor => {
            lines.push(text("Worn stone floor."));
            InspectInfo { title: text("Floor"), lines }
        },
    }
}

} // verus!
