use vstd::prelude::*;

verus! {

/// The most frequencies kept on each side of zero, whatever the chain's length.
pub const FREQUENCY_CAP: usize = 40;

/// How many frequencies `K` a chain of `n` points is fitted with: the
/// coefficients `c_k` for `k` in `-K..=K` are computed.
pub open spec fn frequency_count_spec(n: nat) -> nat {
    if n / 2 < FREQUENCY_CAP as nat {
        n / 2
    } else {
        FREQUENCY_CAP as nat
    }
}

/// `K = min(n / 2, 40)`.
pub fn frequency_count(n: usize) -> (k: usize)
    ensures
        k as nat == frequency_count_spec(n as nat),
{
    if n / 2 < FREQUENCY_CAP {
        n / 2
    } else {
        FREQUENCY_CAP
    }
}

/// The closed sample sequence of a chain: the chain followed by its reverse,
/// of length `L = 2n`, so that the fitted curve returns to its start.
pub fn closed_samples(points: &[(i32, i32)]) -> (s: Vec<(i32, i32)>)
    ensures
        s@ == points@ + points@.reverse(),
{
    let n = points.len();
    let mut s: Vec<(i32, i32)> = Vec::new();
    let mut i: usize = 0;
    while i < n
        invariant
            n == points@.len(),
            i <= n,
            s@ == points@.subrange(0, i as int),
        decreases n - i,
    {
        s.push(points[i]);
        i += 1;
        assert(s@ =~= points@.subrange(0, i as int));
    }
    assert(s@ =~= points@);
    let mut j: usize = n;
    while j > 0
        invariant
            n == points@.len(),
            j <= n,
            s@ == points@ + points@.reverse().subrange(0, (n - j) as int),
        decreases j,
    {
        j -= 1;
        s.push(points[j]);
        assert(s@ =~= points@ + points@.reverse().subrange(0, (n - j) as int));
    }
    assert(points@.reverse().subrange(0, n as int) =~= points@.reverse());
    s
}

pub open spec fn digit_char(d: nat) -> char {
    if d == 0 {
        '0'
    } else if d == 1 {
        '1'
    } else if d == 2 {
        '2'
    } else if d == 3 {
        '3'
    } else if d == 4 {
        '4'
    } else if d == 5 {
        '5'
    } else if d == 6 {
        '6'
    } else if d == 7 {
        '7'
    } else if d == 8 {
        '8'
    } else {
        '9'
    }
}

/// The decimal digits of `n`, most significant first, with no leading zero.
pub open spec fn digits(n: nat) -> Seq<char>
    decreases n,
{
    if n < 10 {
        seq![digit_char(n)]
    } else {
        digits(n / 10) + seq![digit_char(n % 10)]
    }
}

/// The decimal text of an integer, with a leading `-` when it is negative.
pub open spec fn decimal(k: int) -> Seq<char> {
    if k < 0 {
        seq!['-'] + digits((-k) as nat)
    } else {
        digits(k as nat)
    }
}

fn digit_str(d: u64) -> (s: &'static str)
    requires
        d < 10,
    ensures
        s@ == seq![digit_char(d as nat)],
{
    proof {
        reveal_strlit("0");
        reveal_strlit("1");
        reveal_strlit("2");
        reveal_strlit("3");
        reveal_strlit("4");
        reveal_strlit("5");
        reveal_strlit("6");
        reveal_strlit("7");
        reveal_strlit("8");
        reveal_strlit("9");
    }
    if d == 0 {
        "0"
    } else if d == 1 {
        "1"
    } else if d == 2 {
        "2"
    } else if d == 3 {
        "3"
    } else if d == 4 {
        "4"
    } else if d == 5 {
        "5"
    } else if d == 6 {
        "6"
    } else if d == 7 {
        "7"
    } else if d == 8 {
        "8"
    } else {
        "9"
    }
}

fn push_digits(s: &mut String, n: u64)
    ensures
        final(s)@ == old(s)@ + digits(n as nat),
    decreases n,
{
    if n >= 10 {
        push_digits(s, n / 10);
    }
    s.append(digit_str(n % 10));
}

/// Appends the decimal text of `k`.
fn push_decimal(s: &mut String, k: i64)
    requires
        k > i64::MIN,
    ensures
        final(s)@ == old(s)@ + decimal(k as int),
{
    if k < 0 {
        proof {
            reveal_strlit("-");
        }
        s.append("-");
        push_digits(s, (-k) as u64);
        assert(final(s)@ =~= old(s)@ + decimal(k as int));
    } else {
        push_digits(s, k as u64);
    }
}

/// The term of `x(t)` for frequency `k`: `Re(c_k) cos(kt) - Im(c_k) sin(kt)`,
/// with `re` and `im` the decimal texts of the coefficient's parts.
pub open spec fn x_term(re: Seq<char>, im: Seq<char>, k: int) -> Seq<char> {
    re + " cos("@ + decimal(k) + "t) - "@ + im + " sin("@ + decimal(k) + "t)"@
}

/// The term of `y(t)` for frequency `k`: `Re(c_k) sin(kt) + Im(c_k) cos(kt)`.
pub open spec fn y_term(re: Seq<char>, im: Seq<char>, k: int) -> Seq<char> {
    re + " sin("@ + decimal(k) + "t) + "@ + im + " cos("@ + decimal(k) + "t)"@
}

/// The first `n` terms of `x(t)` joined by `+`; the coefficient at index `i`
/// belongs to frequency `i - freqs`.
pub open spec fn x_series(c: Seq<(String, String)>, freqs: int, n: nat) -> Seq<char>
    decreases n,
{
    if n == 0 {
        Seq::empty()
    } else {
        let t = x_term(c[n - 1].0@, c[n - 1].1@, n - 1 - freqs);
        if n == 1 {
            t
        } else {
            x_series(c, freqs, (n - 1) as nat) + "+"@ + t
        }
    }
}

/// The first `n` terms of `y(t)` joined by `+`.
pub open spec fn y_series(c: Seq<(String, String)>, freqs: int, n: nat) -> Seq<char>
    decreases n,
{
    if n == 0 {
        Seq::empty()
    } else {
        let t = y_term(c[n - 1].0@, c[n - 1].1@, n - 1 - freqs);
        if n == 1 {
            t
        } else {
            y_series(c, freqs, (n - 1) as nat) + "+"@ + t
        }
    }
}

/// The emitted equation: `((x(t)),-(y(t)))`. The `y` component is negated
/// because image rows grow downwards.
pub open spec fn equation_text(c: Seq<(String, String)>, freqs: int) -> Seq<char> {
    "(("@ + x_series(c, freqs, c.len()) + "),-("@ + y_series(c, freqs, c.len()) + "))"@
}

fn push_x_term(s: &mut String, re: &String, im: &String, k: i64)
    requires
        k > i64::MIN,
    ensures
        final(s)@ == old(s)@ + x_term(re@, im@, k as int),
{
    s.append(re.as_str());
    s.append(" cos(");
    push_decimal(s, k);
    s.append("t) - ");
    s.append(im.as_str());
    s.append(" sin(");
    push_decimal(s, k);
    s.append("t)");
    assert(final(s)@ =~= old(s)@ + x_term(re@, im@, k as int));
}

fn push_y_term(s: &mut String, re: &String, im: &String, k: i64)
    requires
        k > i64::MIN,
    ensures
        final(s)@ == old(s)@ + y_term(re@, im@, k as int),
{
    s.append(re.as_str());
    s.append(" sin(");
    push_decimal(s, k);
    s.append("t) + ");
    s.append(im.as_str());
    s.append(" cos(");
    push_decimal(s, k);
    s.append("t)");
    assert(final(s)@ =~= old(s)@ + y_term(re@, im@, k as int));
}

/// Writes the epicycle equation of a chain from its fitted coefficients.
///
/// `coefficients[i]` holds the decimal texts of `Re(c_k)` and `Im(c_k)` for
/// frequency `k = i - K`, where `K = frequency_count(points.len())`, and the
/// `c_k` are the discrete Fourier coefficients of `closed_samples(points)`:
/// `c_k = (1/L) sum_m p_m e^(-2 pi i k m / L)`. The result is
/// `((x(t)),-(y(t)))` with
/// `x(t) = sum_k Re(c_k) cos(kt) - Im(c_k) sin(kt)` and
/// `y(t) = sum_k Re(c_k) sin(kt) + Im(c_k) cos(kt)`, the terms in increasing
/// order of `k` and joined by `+`.
pub fn construct_equation(points: &[(i32, i32)], coefficients: &[(String, String)]) -> (eq: String)
    requires
        coefficients@.len() == 2 * frequency_count_spec(points@.len()) + 1,
    ensures
        eq@ == equation_text(coefficients@, frequency_count_spec(points@.len()) as int),
{
    let freqs = frequency_count(points.len());
    let total = coefficients.len();
    let ghost c = coefficients@;
    let ghost f = freqs as int;
    let mut xt = String::new();
    let mut yt = String::new();
    let mut n: usize = 0;
    while n < total
        invariant
            total == c.len(),
            c == coefficients@,
            f == freqs as int,
            freqs <= FREQUENCY_CAP,
            total == 2 * freqs + 1,
            n <= total,
            xt@ == x_series(c, f, n as nat),
            yt@ == y_series(c, f, n as nat),
        decreases total - n,
    {
        let k = n as i64 - freqs as i64;
        if n > 0 {
            proof {
                reveal_strlit("+");
            }
            xt.append("+");
            yt.append("+");
        }
        let (re, im) = (&coefficients[n].0, &coefficients[n].1);
        push_x_term(&mut xt, re, im, k);
        push_y_term(&mut yt, re, im, k);
        n += 1;
        assert(xt@ =~= x_series(c, f, n as nat));
        assert(yt@ =~= y_series(c, f, n as nat));
    }
    let mut eq = String::new();
    eq.append("((");
    eq.append(xt.as_str());
    eq.append("),-(");
    eq.append(yt.as_str());
    eq.append("))");
    assert(eq@ =~= equation_text(c, f));
    eq
}

} // verus!
