use vstd::prelude::*;
use vstd::string::*;

verus! {

/// A user record.
#[derive(Clone, Debug)]
pub struct User {
    pub name: String,
    pub email: String,
    pub age: u32,
}

pub open spec fn adult(u: User) -> bool {
    u.age >= 18
}

impl User {
    pub fn new(name: String, email: String, age: u32) -> (r: User)
        ensures
            r.name@ == name@,
            r.email@ == email@,
            r.age == age,
    {
        User { name: name.clone(), email: email.clone(), age }
    }

    pub fn get_name(&self) -> (r: String)
        ensures
            r@ == self.name@,
    {
        self.name.clone()
    }

    pub fn is_adult(&mut self) -> (r: bool)
        ensures
            r == adult(*old(self)),
            *final(self) == *old(self),
    {
        self.age >= 18
    }
}

/// The quotient of `a` by `b`, rounded toward zero.
pub open spec fn quotient_toward_zero(a: int, b: int) -> int {
    let q = (if a < 0 { -a } else { a }) / (if b < 0 { -b } else { b });
    if (a < 0) == (b < 0) { q } else { -q }
}

/// Integer division, truncating toward zero.
pub fn divide_numbers(a: i32, b: i32) -> (r: i32)
    requires
        b != 0,
        !(a == i32::MIN && b == -1),
    ensures
        r as int == quotient_toward_zero(a as int, b as int),
{
    let ua: u32 = if a < 0 { (-(a as i64)) as u32 } else { a as u32 };
    let ub: u32 = if b < 0 { (-(b as i64)) as u32 } else { b as u32 };
    let q: u32 = ua / ub;
    assert(q <= ua) by (nonlinear_arith)
        requires ub >= 1, q == ua / ub;
    assert(ub >= 2 ==> q <= ua / 2) by (nonlinear_arith)
        requires q == ua / ub;
    if (a < 0) == (b < 0) {
        q as i32
    } else {
        (-(q as i64)) as i32
    }
}

fn contains_char(s: &str, c: char) -> (r: bool)
    ensures
        r == s@.contains(c),
{
    let n = s.unicode_len();
    let mut i: usize = 0;
    while i < n
        invariant
            n == s@.len(),
            i <= n,
            forall|j: int| 0 <= j < i ==> s@[j] != c,
        decreases n - i,
    {
        if s.get_char(i) == c {
            assert(s@[i as int] == c);
            return true;
        }
        i = i + 1;
    }
    false
}

/// A non-empty address holding both `@` and `.`.
pub fn is_valid_email(email: String) -> (r: bool)
    ensures
        r == (email@.len() > 0 && email@.contains('@') && email@.contains('.')),
{
    email.unicode_len() != 0 && contains_char(email.as_str(), '@') && contains_char(email.as_str(), '.')
}

/// The adults among `users`, in their order.
pub fn filter_adults(users: Vec<User>) -> (r: Vec<User>)
    ensures
        r@ == users@.filter(|u: User| adult(u)),
{
    let ghost orig = users@;
    let total = users.len();
    assert(orig.len() == total);
    let mut rest = users;
    let mut adults: Vec<User> = Vec::new();
    let mut i: usize = 0;
    while rest.len() > 0
        invariant
            i + rest@.len() == orig.len(),
            orig.len() <= usize::MAX,
            rest@ == orig.skip(i as int),
            adults@ == orig.take(i as int).filter(|u: User| adult(u)),
        decreases rest.len(),
    {
        let user = rest.remove(0);
        assert(user == orig[i as int]);
        assert(orig.take(i + 1).drop_last() =~= orig.take(i as int));
        reveal(Seq::filter);
        if user.age >= 18 {
            adults.push(user);
        }
        assert(rest@ =~= orig.skip(i + 1));
        i = i + 1;
    }
    assert(orig.take(i as int) =~= orig);
    adults
}

pub open spec fn is_digit(c: char) -> bool {
    '0' <= c <= '9'
}

/// The value of a string of decimal digits.
pub open spec fn digits_value(s: Seq<char>) -> nat
    decreases s.len(),
{
    if s.len() == 0 {
        0
    } else {
        digits_value(s.drop_last()) * 10 + (s.last() as int - '0' as int) as nat
    }
}

/// The digits of a number text, after an optional leading `+`.
pub open spec fn unsigned_digits(s: Seq<char>) -> Seq<char> {
    if s.len() > 0 && s[0] == '+' {
        s.drop_first()
    } else {
        s
    }
}

/// `s` is the text of a number that fits in a `u32`.
pub open spec fn parses_as_u32(s: Seq<char>) -> bool {
    unsigned_digits(s).len() > 0 && (forall|i: int|
        0 <= i < unsigned_digits(s).len() ==> is_digit(#[trigger] unsigned_digits(s)[i]))
        && digits_value(unsigned_digits(s)) <= u32::MAX
}

proof fn lemma_prefix_value(s: Seq<char>, i: int)
    requires
        0 <= i <= s.len(),
        forall|j: int| 0 <= j < s.len() ==> is_digit(#[trigger] s[j]),
    ensures
        digits_value(s.take(i)) <= digits_value(s),
    decreases s.len(),
{
    if i < s.len() {
        let t = s.drop_last();
        assert(is_digit(s[s.len() - 1]));
        if i < t.len() {
            assert forall|j: int| 0 <= j < t.len() implies is_digit(#[trigger] t[j]) by {
                assert(t[j] == s[j]);
            }
            lemma_prefix_value(t, i);
            assert(t.take(i) =~= s.take(i));
        } else {
            assert(t =~= s.take(i));
        }
    } else {
        assert(s.take(i) =~= s);
    }
}

/// Reads an age written in decimal, with an optional leading `+`.
pub fn parse_age(age_str: &str) -> (r: u32)
    requires
        parses_as_u32(age_str@),
    ensures
        r == digits_value(unsigned_digits(age_str@)),
{
    let n = age_str.unicode_len();
    let ghost d = unsigned_digits(age_str@);
    let mut i: usize = if age_str.get_char(0) == '+' { 1 } else { 0 };
    let start = i;
    assert(d =~= age_str@.skip(start as int));
    let mut acc: u32 = 0;
    while i < n
        invariant
            n == age_str@.len(),
            start <= i <= n,
            d == age_str@.skip(start as int),
            parses_as_u32(age_str@),
            d == unsigned_digits(age_str@),
            acc == digits_value(d.take(i - start)),
        decreases n - i,
    {
        let c = age_str.get_char(i);
        let ghost k = (i - start) as int;
        assert(d[k] == c);
        assert(is_digit(d[k]));
        assert(d.take(k + 1).drop_last() =~= d.take(k));
        proof {
            lemma_prefix_value(d, k + 1);
        }
        acc = acc * 10 + (c as u32 - '0' as u32);
        i = i + 1;
    }
    assert(d.take(n - start) =~= d);
    acc
}

/// The first user of a non-empty list.
pub fn get_first_user<'a>(users: &'a Vec<User>) -> (r: &'a User)
    requires
        users.len() > 0,
    ensures
        *r == users@[0],
{
    &users[0]
}

/// The decimal digit for `d`.
pub open spec fn digit_char(d: nat) -> char {
    if d == 0 { '0' } else if d == 1 { '1' } else if d == 2 { '2' } else if d == 3 { '3' }
    else if d == 4 { '4' } else if d == 5 { '5' } else if d == 6 { '6' } else if d == 7 { '7' }
    else if d == 8 { '8' } else { '9' }
}

/// The decimal text of `n`, without leading zeros.
pub open spec fn decimal(n: nat) -> Seq<char>
    decreases n,
{
    if n < 10 {
        seq![digit_char(n)]
    } else {
        decimal(n / 10) + seq![digit_char(n % 10)]
    }
}

fn digit_text(d: u32) -> (r: &'static str)
    requires
        d < 10,
    ensures
        r@ == seq![digit_char(d as nat)],
{
    proof {
        reveal_strlit("0");
        reveal_strlit("1");
        reveal_strlit("2");
        reveal_strlit("3");
        reveal_strlit("4");
        reveal_strlit("5");
        reveal_strlit("6");
        reveal_strlit("7");
        reveal_strlit("8");
        reveal_strlit("9");
    }
    let r = if d == 0 { "0" } else if d == 1 { "1" } else if d == 2 { "2" } else if d == 3 { "3" }
    else if d == 4 { "4" } else if d == 5 { "5" } else if d == 6 { "6" } else if d == 7 { "7" }
    else if d == 8 { "8" } else { "9" };
    assert(r@ =~= seq![digit_char(d as nat)]);
    r
}

/// Writes `n` in decimal.
pub fn decimal_text(n: u32) -> (r: String)
    ensures
        r@ == decimal(n as nat),
    decreases n,
{
    if n < 10 {
        String::from_str(digit_text(n))
    } else {
        let head = decimal_text(n / 10);
        head.concat(digit_text(n % 10))
    }
}

pub open spec fn user_summary(name: Seq<char>, email: Seq<char>, age: u32) -> Seq<char> {
    "Processing user: "@ + name + ", Email: "@ + email + ", Age: "@ + decimal(age as nat) + if age
        > 65 {
        " (Senior)"@
    } else {
        Seq::empty()
    }
}

/// Describes a user; the name must not be empty.
pub fn process_user(name: &str, email: &str, age: u32) -> (r: String)
    requires
        name@.len() > 0,
    ensures
        r@ == user_summary(name@, email@, age),
{
    let mut result = String::from_str("Processing user: ");
    result.append(name);
    result.append(", Email: ");
    result.append(email);
    result.append(", Age: ");
    let age_text = decimal_text(age);
    result.append(age_text.as_str());
    if age > 65 {
        result.append(" (Senior)");
    }
    assert(result@ =~= user_summary(name@, email@, age));
    result
}

} // verus!
