use vstd::prelude::*;
use vstd::string::*;
use rand::seq::SliceRandom;

verus! {

/// The views of a sequence of strings.
pub open spec fn strings_view(v: Seq<String>) -> Seq<Seq<char>> {
    v.map_values(|s: String| s@)
}

/// The length of the longest line.
pub open spec fn max_width(lines: Seq<Seq<char>>) -> nat
    decreases lines.len(),
{
    if lines.len() == 0 {
        0
    } else {
        let w = max_width(lines.drop_last());
        if lines.last().len() > w {
            lines.last().len()
        } else {
            w
        }
    }
}

/// `n` copies of `c`.
pub open spec fn repeat(c: char, n: nat) -> Seq<char> {
    Seq::new(n, |i: int| c)
}

/// `line` padded with spaces on the right to `width` characters.
pub open spec fn padded(line: Seq<char>, width: nat) -> Seq<char> {
    line + repeat(' ', (width - line.len()) as nat)
}

/// Line `i` of the bubble's body: the first opens with `/`, the last with `\`, the
/// others with `|`.
pub open spec fn body_line(lines: Seq<Seq<char>>, i: int, width: nat) -> Seq<char> {
    if i == 0 {
        seq!['/', ' '] + padded(lines[i], width) + seq![' ', '\\']
    } else if i == lines.len() - 1 {
        seq!['\\', ' '] + padded(lines[i], width) + seq![' ', '/']
    } else {
        seq!['|', ' '] + padded(lines[i], width) + seq![' ', '|']
    }
}

/// The bubble around `lines`, a line at a time: a rule of `_` above, the framed
/// lines, a rule of `-` below.
pub open spec fn bubble(lines: Seq<Seq<char>>) -> Seq<Seq<char>> {
    let w = max_width(lines);
    seq![seq![' '] + repeat('_', w + 2)]
        + Seq::new(lines.len(), |i: int| body_line(lines, i, w))
        + seq![seq![' '] + repeat('-', w + 2)]
}

/// `ls` joined with newlines.
pub open spec fn joined(ls: Seq<Seq<char>>) -> Seq<char>
    decreases ls.len(),
{
    if ls.len() == 0 {
        Seq::empty()
    } else if ls.len() == 1 {
        ls[0]
    } else {
        joined(ls.drop_last()) + seq!['\n'] + ls.last()
    }
}

/// The bubble, then the cow below it when there is one.
pub open spec fn cow_says(lines: Seq<Seq<char>>, cow: Option<Seq<char>>) -> Seq<char> {
    match cow {
        Some(c) => joined(bubble(lines)) + seq!['\n'] + c,
        None => joined(bubble(lines)),
    }
}

/// Relies on rand's `SliceRandom::choose` with the thread-local generator: `None`
/// for an empty list, otherwise a copy of one of its items.
#[verifier::external_body]
fn choose_cow(cows: &Vec<String>) -> (r: Option<String>)
    ensures
        r is None <==> cows@.len() == 0,
        r matches Some(c) ==> exists|i: int| 0 <= i < cows@.len() && cows@[i]@ == c@,
{
    cows.choose(&mut rand::thread_rng()).cloned()
}

/// Appends `n` copies of the one-character `unit`.
fn append_repeat(s: &mut String, unit: &str, c: Ghost<char>, n: usize)
    requires
        unit@ == seq![c@],
    ensures
        final(s)@ == old(s)@ + repeat(c@, n as nat),
{
    let mut i: usize = 0;
    while i < n
        invariant
            i <= n,
            unit@ == seq![c@],
            s@ == old(s)@ + repeat(c@, i as nat),
        decreases n - i,
    {
        s.append(unit);
        i += 1;
        assert(s@ =~= old(s)@ + repeat(c@, i as nat));
    }
}

/// A rule: a space, then `width + 2` copies of the one-character `unit`.
fn rule(unit: &str, c: Ghost<char>, width: usize) -> (r: String)
    requires
        unit@ == seq![c@],
    ensures
        r@ == seq![' '] + repeat(c@, width as nat + 2),
{
    proof {
        reveal_strlit(" ");
        assert(" "@ =~= seq![' ']);
    }
    let mut s = String::from_str(" ");
    s.append(unit);
    s.append(unit);
    append_repeat(&mut s, unit, c, width);
    assert(s@ =~= seq![' '] + repeat(c@, width as nat + 2));
    s
}

/// One framed line: `open`, the line padded to `width`, then `close`.
fn frame(line: &String, width: usize, open: &str, close: &str) -> (r: String)
    requires
        line@.len() <= width,
    ensures
        r@ == open@ + padded(line@, width as nat) + close@,
{
    proof {
        reveal_strlit(" ");
        assert(" "@ =~= seq![' ']);
    }
    let mut s = String::from_str(open);
    s.append(line.as_str());
    let n = width - line.as_str().unicode_len();
    append_repeat(&mut s, " ", Ghost(' '), n);
    s.append(close);
    assert(s@ =~= open@ + padded(line@, width as nat) + close@);
    s
}

/// `ls` joined with newlines.
fn join_lines(ls: &Vec<String>) -> (r: String)
    ensures
        r@ == joined(strings_view(ls@)),
{
    proof {
        reveal_strlit("\n");
        assert("\n"@ =~= seq!['\n']);
    }
    let ghost v = strings_view(ls@);
    let mut s = String::new();
    let mut i: usize = 0;
    while i < ls.len()
        invariant
            v == strings_view(ls@),
            i <= v.len(),
            s@ == joined(v.take(i as int)),
        decreases v.len() - i,
    {
        assert(v.take(i + 1).drop_last() =~= v.take(i as int));
        assert(v.take(i + 1).last() == ls@[i as int]@);
        let ghost prev = s@;
        if i > 0 {
            proof {
                reveal_strlit("\n");
                assert("\n"@ =~= seq!['\n']);
            }
            s.append("\n");
        }
        s.append(ls[i].as_str());
        i += 1;
        if i == 1 {
            assert(s@ =~= joined(v.take(i as int)));
        } else {
            assert(s@ =~= prev + seq!['\n'] + ls@[i - 1]@);
            assert(s@ =~= joined(v.take(i as int)));
        }
    }
    assert(v.take(v.len() as int) =~= v);
    s
}

/// `lines` inside a speech bubble, as one string.
pub fn speech_bubble(lines: Vec<String>) -> (r: String)
    requires
        lines@.len() >= 2,
    ensures
        r@ == joined(bubble(strings_view(lines@))),
{
    proof {
        reveal_strlit("/ ");
        reveal_strlit(" \\");
        reveal_strlit("\\ ");
        reveal_strlit(" /");
        reveal_strlit("| ");
        reveal_strlit(" |");
        reveal_strlit("_");
        reveal_strlit("-");
        assert("_"@ =~= seq!['_']);
        assert("-"@ =~= seq!['-']);
        assert("/ "@ =~= seq!['/', ' ']);
        assert(" \\"@ =~= seq![' ', '\\']);
        assert("\\ "@ =~= seq!['\\', ' ']);
        assert(" /"@ =~= seq![' ', '/']);
        assert("| "@ =~= seq!['|', ' ']);
        assert(" |"@ =~= seq![' ', '|']);
    }
    let ghost v = strings_view(lines@);
    let n = lines.len();
    let mut width: usize = 0;
    let mut i: usize = 0;
    while i < n
        invariant
            n == lines@.len(),
            v == strings_view(lines@),
            i <= n,
            width == max_width(v.take(i as int)),
            forall|j: int| 0 <= j < i ==> #[trigger] v[j].len() <= width,
        decreases n - i,
    {
        assert(v.take(i + 1).drop_last() =~= v.take(i as int));
        let l = lines[i].as_str().unicode_len();
        if l > width {
            width = l;
        }
        i += 1;
    }
    assert(v.take(n as int) =~= v);
    let mut out: Vec<String> = Vec::new();
    out.push(rule("_", Ghost('_'), width));
    let mut k: usize = 0;
    while k < n
        invariant
            n == lines@.len(),
            n >= 2,
            v == strings_view(lines@),
            width == max_width(v),
            forall|j: int| 0 <= j < n ==> #[trigger] v[j].len() <= width,
            k <= n,
            strings_view(out@) == seq![seq![' '] + repeat('_', width as nat + 2)]
                + Seq::new(k as nat, |j: int| body_line(v, j, width as nat)),
        decreases n - k,
    {
        let ghost before = strings_view(out@);
        assert(v[k as int] == lines@[k as int]@);
        proof {
            reveal_strlit("/ ");
            reveal_strlit(" \\");
            reveal_strlit("\\ ");
            reveal_strlit(" /");
            reveal_strlit("| ");
            reveal_strlit(" |");
            assert("/ "@ =~= seq!['/', ' ']);
            assert(" \\"@ =~= seq![' ', '\\']);
            assert("\\ "@ =~= seq!['\\', ' ']);
            assert(" /"@ =~= seq![' ', '/']);
            assert("| "@ =~= seq!['|', ' ']);
            assert(" |"@ =~= seq![' ', '|']);
        }
        let line = if k == 0 {
            frame(&lines[k], width, "/ ", " \\")
        } else if k == n - 1 {
            frame(&lines[k], width, "\\ ", " /")
        } else {
            frame(&lines[k], width, "| ", " |")
        };
        assert(line@ == body_line(v, k as int, width as nat));
        out.push(line);
        k += 1;
        assert(strings_view(out@) =~= before.push(body_line(v, k - 1, width as nat)));
        assert(Seq::new(k as nat, |j: int| body_line(v, j, width as nat)) =~=
            Seq::new((k - 1) as nat, |j: int| body_line(v, j, width as nat)).push(body_line(v, k - 1, width as nat)));
        assert(strings_view(out@) =~= seq![seq![' '] + repeat('_', width as nat + 2)]
            + Seq::new(k as nat, |j: int| body_line(v, j, width as nat)));
    }
    let ghost top_and_body = strings_view(out@);
    out.push(rule("-", Ghost('-'), width));
    assert(strings_view(out@) =~= top_and_body.push(seq![' '] + repeat('-', width as nat + 2)));
    assert(strings_view(out@) =~= bubble(v));
    join_lines(&out)
}

/// A set of cow pictures, one of which is drawn under each speech bubble.
pub struct Cowsay {
    cows: Vec<String>,
}

impl View for Cowsay {
    type V = Seq<Seq<char>>;

    closed spec fn view(&self) -> Seq<Seq<char>> {
        strings_view(self.cows@)
    }
}

/// The bubble around `lines`, then `cow` below it when there is one.
pub fn say_with_cow(lines: Vec<String>, cow: Option<String>) -> (r: String)
    requires
        lines@.len() >= 2,
    ensures
        r@ == cow_says(strings_view(lines@), match cow { Some(c) => Some(c@), None => None }),
{
    let bubble_text = speech_bubble(lines);
    match cow {
        Some(c) => {
            let mut s = bubble_text;
            proof {
                reveal_strlit("\n");
            }
            s.append("\n");
            s.append(c.as_str());
            s
        },
        None => bubble_text,
    }
}

impl Cowsay {
    /// No cows yet.
    pub fn new() -> (r: Cowsay)
        ensures
            r@ == Seq::<Seq<char>>::empty(),
    {
        let r = Cowsay { cows: Vec::new() };
        assert(r@ =~= Seq::<Seq<char>>::empty());
        r
    }

    /// Adds one cow picture.
    pub fn add_cow(&mut self, cow: String)
        ensures
            final(self)@ == old(self)@.push(cow@),
    {
        self.cows.push(cow);
        assert(self@ =~= old(self)@.push(cow@));
    }

    /// The bubble around `lines` with a cow picked at random below it, or the bubble
    /// alone when there are no cows.
    pub fn say_random_cow(&self, lines: Vec<String>) -> (r: String)
        requires
            lines@.len() >= 2,
        ensures
            self@.len() == 0 ==> r@ == cow_says(strings_view(lines@), None),
            self@.len() > 0 ==> exists|i: int| 0 <= i < self@.len() && r@ == cow_says(strings_view(lines@), Some(self@[i])),
    {
        let cow = choose_cow(&self.cows);
        proof {
            if cow is Some {
                let c = cow->Some_0;
                let i = choose|i: int| 0 <= i < self.cows@.len() && self.cows@[i]@ == c@;
                assert(self@[i] == c@);
            }
        }
        say_with_cow(lines, cow)
    }
}

} // verus!
