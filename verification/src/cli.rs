//! Reading a command line.

use vstd::prelude::*;
use vstd::string::*;

use crate::strings::{chars_of, same_text, split, string_of, trim};
#[allow(unused_imports)]
use crate::strings::{
    all_digits, begins_with, char_rows, decimal, decimal_int, digits_value, free_of, is_digit,
    law_decimal_reads_back, law_separator_parts_pieces, law_trimming_takes_white_space_alone,
    lemma_decimal_int_free, pieces, string_rows, trimmed, unsigned_read,
};
use crate::uia::act::ActArgs;
use crate::uia::select::Selector;
#[allow(unused_imports)]
use crate::uia::select::{text_in, SelectorView};

verus! {

/// How to look at the desktop.
#[derive(Debug, Clone, Copy, PartialEq, Eq, Structural)]
pub enum Detail {
    /// The windows, and the elements of the focused one.
    Text,
    /// An image of the screen.
    Image,
    /// Only what changed since the last time.
    Diff,
}

/// The way of looking that has a name.
pub open spec fn detail_named(s: Seq<char>) -> Option<Detail> {
    if s == "text"@ {
        Some(Detail::Text)
    } else if s == "image"@ {
        Some(Detail::Image)
    } else if s == "diff"@ {
        Some(Detail::Diff)
    } else {
        None
    }
}

/// What is said of a name that no way of looking has.
pub open spec fn unknown_detail_message(s: Seq<char>) -> Seq<char> {
    "unknown detail '"@ + s + "' (text|image|diff)"@
}

/// Reads how to look at the desktop.
pub fn parse_detail(s: &str) -> (r: Result<Detail, String>)
    ensures
        match r {
            Ok(d) => detail_named(s@) == Some(d),
            Err(e) => detail_named(s@) is None && e@ == unknown_detail_message(s@),
        },
{
    if same_text(s, "text") {
        Ok(Detail::Text)
    } else if same_text(s, "image") {
        Ok(Detail::Image)
    } else if same_text(s, "diff") {
        Ok(Detail::Diff)
    } else {
        let mut out = String::new();
        out.append("unknown detail '");
        out.append(s);
        out.append("' (text|image|diff)");
        assert(out@ =~= unknown_detail_message(s@));
        Err(out)
    }
}

/// The entries of a comma-separated list, without the space around them and
/// without the empty ones.
pub open spec fn entries_of(rows: Seq<Seq<char>>) -> Seq<Seq<char>>
    decreases rows.len(),
{
    if rows.len() == 0 {
        Seq::<Seq<char>>::empty()
    } else if trimmed(rows.last()).len() == 0 {
        entries_of(rows.drop_last())
    } else {
        entries_of(rows.drop_last()).push(trimmed(rows.last()))
    }
}

fn entries(s: &str) -> (r: Vec<Vec<char>>)
    ensures
        char_rows(r@) == entries_of(pieces(s@, ',')),
{
    let rows = split(&chars_of(s), ',');
    let ghost all = char_rows(rows@);
    let mut out: Vec<Vec<char>> = Vec::new();
    for i in 0..rows.len()
        invariant
            all == char_rows(rows@),
            char_rows(out@) == entries_of(all.take(i as int)),
    {
        let ghost before = char_rows(out@);
        let ghost upto = all.take(i + 1);
        assert(upto.drop_last() =~= all.take(i as int));
        assert(upto.last() == rows@[i as int]@);
        let entry = trim(&rows[i]);
        if entry.len() > 0 {
            let ghost added = entry@;
            out.push(entry);
            assert(char_rows(out@) =~= before.push(added));
        }
    }
    assert(all.take(rows@.len() as int) =~= all);
    out
}

/// Reads a comma-separated list of addresses.
pub fn parse_allowlist(s: &str) -> (r: Vec<String>)
    ensures
        string_rows(r@) == entries_of(pieces(s@, ',')),
{
    let rows = entries(s);
    let mut out: Vec<String> = Vec::new();
    for i in 0..rows.len()
        invariant
            string_rows(out@) == char_rows(rows@).take(i as int),
    {
        let ghost before = string_rows(out@);
        out.push(string_of(&rows[i]));
        assert(string_rows(out@) =~= before.push(char_rows(rows@)[i as int]));
        assert(char_rows(rows@).take(i + 1) =~= before.push(char_rows(rows@)[i as int]));
    }
    assert(char_rows(rows@).take(rows@.len() as int) =~= char_rows(rows@));
    out
}

/// Why a path does not parse.
#[derive(Debug, Clone, Copy, PartialEq, Eq, Structural)]
pub enum PathError {
    /// Something that is not a digit.
    Digit,
    /// An index that is too large.
    TooLarge,
}

/// What is said of a path that does not parse.
pub open spec fn path_message(e: PathError) -> Seq<char> {
    match e {
        PathError::Digit => "invalid digit found in string"@,
        PathError::TooLarge => "number too large to fit in target type"@,
    }
}

impl PathError {
    /// What is said of the path.
    pub fn message(&self) -> (r: &'static str)
        ensures
            r@ == path_message(*self),
    {
        match self {
            PathError::Digit => "invalid digit found in string",
            PathError::TooLarge => "number too large to fit in target type",
        }
    }
}

/// How many digits a text begins with.
pub open spec fn leading_digits(s: Seq<char>) -> int
    decreases s.len(),
{
    if s.len() == 0 || !is_digit(s[0]) {
        0
    } else {
        1 + leading_digits(s.drop_first())
    }
}

/// A text without a plus sign before it, unless the sign is all of it.
pub open spec fn unsigned_part(s: Seq<char>) -> Seq<char> {
    if s.len() > 1 && s[0] == '+' {
        s.drop_first()
    } else {
        s
    }
}

/// The index that an entry of a path stands for. The digits are read from the
/// left, and the first fault that is met counts.
pub open spec fn index_read(s: Seq<char>) -> Result<u32, PathError> {
    let digits = unsigned_part(s);
    let run = digits.take(leading_digits(digits));
    if digits_value(run) > u32::MAX {
        Err(PathError::TooLarge)
    } else if run.len() == 0 || run.len() < digits.len() {
        Err(PathError::Digit)
    } else {
        Ok(digits_value(run) as u32)
    }
}

/// The indices that the entries of a path stand for, or the first fault.
pub open spec fn indices_read(rows: Seq<Seq<char>>) -> Result<Seq<u32>, PathError>
    decreases rows.len(),
{
    if rows.len() == 0 {
        Ok(Seq::<u32>::empty())
    } else {
        match indices_read(rows.drop_last()) {
            Err(e) => Err(e),
            Ok(before) => match index_read(rows.last()) {
                Err(e) => Err(e),
                Ok(n) => Ok(before.push(n)),
            },
        }
    }
}

proof fn lemma_digits_grow(s: Seq<char>, n: int)
    requires
        0 <= n <= s.len(),
        forall|i: int| 0 <= i < s.len() ==> is_digit(#[trigger] s[i]),
    ensures
        0 <= digits_value(s.take(n)) <= digits_value(s),
    decreases s.len(),
{
    if s.len() == 0 {
        assert(s.take(n) =~= s);
    } else if n == s.len() {
        assert(s.take(n) =~= s);
        lemma_digits_grow(s.drop_last(), 0);
        assert(s.drop_last().take(0) =~= Seq::<char>::empty());
        assert(is_digit(s[s.len() - 1]));
    } else {
        lemma_digits_grow(s.drop_last(), n);
        assert(s.drop_last().take(n) =~= s.take(n));
        assert(is_digit(s[s.len() - 1]));
    }
}

proof fn lemma_leading(s: Seq<char>, n: int)
    requires
        0 <= n <= s.len(),
        forall|i: int| 0 <= i < n ==> is_digit(#[trigger] s[i]),
        n < s.len() ==> !is_digit(s[n]),
    ensures
        leading_digits(s) == n,
    decreases s.len(),
{
    if n > 0 {
        let rest = s.drop_first();
        assert(is_digit(s[0]));
        assert forall|i: int| 0 <= i < n - 1 implies is_digit(#[trigger] rest[i]) by {
            assert(rest[i] == s[i + 1]);
        }
        if n < s.len() {
            assert(rest[n - 1] == s[n]);
        }
        lemma_leading(rest, n - 1);
    }
}

proof fn lemma_leading_bounds(s: Seq<char>)
    ensures
        0 <= leading_digits(s) <= s.len(),
        forall|i: int| 0 <= i < leading_digits(s) ==> is_digit(#[trigger] s[i]),
        leading_digits(s) < s.len() ==> !is_digit(s[leading_digits(s)]),
    decreases s.len(),
{
    if s.len() > 0 && is_digit(s[0]) {
        let rest = s.drop_first();
        lemma_leading_bounds(rest);
        assert forall|i: int| 0 <= i < leading_digits(s) implies is_digit(#[trigger] s[i]) by {
            if i > 0 {
                assert(s[i] == rest[i - 1]);
            }
        }
        if leading_digits(s) < s.len() {
            assert(s[leading_digits(s)] == rest[leading_digits(rest)]);
        }
    }
}

fn read_index(v: &Vec<char>) -> (r: Result<u32, PathError>)
    ensures
        r == index_read(v@),
{
    let size: usize = v.len();
    let start: usize = if size > 1 && v[0] == '+' {
        1
    } else {
        0
    };
    let ghost digits = unsigned_part(v@);
    assert(digits =~= v@.skip(start as int));
    proof {
        lemma_leading_bounds(digits);
    }
    let ghost run = digits.take(leading_digits(digits));
    let mut value: u64 = 0;
    let mut i: usize = start;
    while i < size && '0' <= v[i] && v[i] <= '9'
        invariant
            size == v@.len(),
            start <= i <= size,
            start <= 1,
            digits == v@.skip(start as int),
            run == digits.take(leading_digits(digits)),
            0 <= leading_digits(digits) <= digits.len(),
            forall|j: int| 0 <= j < leading_digits(digits) ==> is_digit(#[trigger] digits[j]),
            leading_digits(digits) < digits.len() ==> !is_digit(digits[leading_digits(digits)]),
            forall|j: int| 0 <= j < i - start ==> is_digit(#[trigger] digits[j]),
            value == digits_value(digits.take(i - start)),
            value <= u32::MAX,
            index_read(v@) == (if digits_value(run) > u32::MAX {
                Err::<u32, PathError>(PathError::TooLarge)
            } else if run.len() == 0 || run.len() < digits.len() {
                Err(PathError::Digit)
            } else {
                Ok(digits_value(run) as u32)
            }),
        decreases size - i,
    {
        let ghost k = i - start;
        assert(digits[k] == v@[i as int]);
        let d: u64 = (v[i] as u32 - 48) as u64;
        proof {
            assert(digits.take(k + 1).drop_last() =~= digits.take(k));
            assert(digits.take(k + 1).last() == digits[k]);
            assert(is_digit(digits[k]));
            if k + 1 > leading_digits(digits) {
                assert(is_digit(digits[leading_digits(digits)]));
            }
            assert(run.take(k + 1) =~= digits.take(k + 1));
            assert forall|j: int| 0 <= j < run.len() implies is_digit(#[trigger] run[j]) by {
                assert(run[j] == digits[j]);
            }
            lemma_digits_grow(run, k + 1);
        }
        value = value * 10 + d;
        i = i + 1;
        if value > 0xffff_ffff {
            return Err(PathError::TooLarge);
        }
    }
    proof {
        let n = i - start;
        if n < digits.len() {
            assert(digits[n] == v@[i as int]);
        }
        lemma_leading(digits, n);
    }
    if i == start || i < size {
        return Err(PathError::Digit);
    }
    Ok(value as u32)
}

/// A path in the terms of the model.
pub open spec fn path_result(r: Result<Vec<u32>, PathError>) -> Result<Seq<u32>, PathError> {
    match r {
        Ok(v) => Ok(v@),
        Err(e) => Err(e),
    }
}

proof fn lemma_indices_stop(rows: Seq<Seq<char>>, n: int)
    requires
        0 <= n <= rows.len(),
        indices_read(rows.take(n)) is Err,
    ensures
        indices_read(rows) == indices_read(rows.take(n)),
    decreases rows.len(),
{
    if n < rows.len() {
        assert(rows.drop_last().take(n) =~= rows.take(n));
        lemma_indices_stop(rows.drop_last(), n);
    } else {
        assert(rows.take(n) =~= rows);
    }
}

/// Reads a comma-separated path of child indices, like "1,0,0,0,1".
pub fn parse_path(s: &str) -> (r: Result<Vec<u32>, PathError>)
    ensures
        path_result(r) == indices_read(entries_of(pieces(s@, ','))),
{
    let rows = entries(s);
    let ghost all = char_rows(rows@);
    let mut out: Vec<u32> = Vec::new();
    for i in 0..rows.len()
        invariant
            all == char_rows(rows@),
            all == entries_of(pieces(s@, ',')),
            indices_read(all.take(i as int)) == Ok::<Seq<u32>, PathError>(out@),
    {
        let ghost upto = all.take(i + 1);
        assert(upto.drop_last() =~= all.take(i as int));
        assert(upto.last() == rows@[i as int]@);
        match read_index(&rows[i]) {
            Ok(n) => {
                out.push(n);
            },
            Err(e) => {
                proof {
                    lemma_indices_stop(all, i + 1);
                }
                return Err(e);
            },
        }
    }
    assert(all.take(rows@.len() as int) =~= all);
    Ok(out)
}

/// Why a request is not made.
#[derive(Debug, Clone, Copy, PartialEq, Eq, Structural)]
pub enum RequestError {
    Path(PathError),
    /// Neither a path nor anything to select by was given.
    NoTarget,
    /// No run was asked for.
    NoRuns,
}

/// What is said of a request that is not made.
pub open spec fn request_message(e: RequestError) -> Seq<char> {
    match e {
        RequestError::Path(e) => path_message(e),
        RequestError::NoTarget =>
            "give --path or at least one of --name / --automation-id / --control-type"@,
        RequestError::NoRuns => "--runs must be at least 1"@,
    }
}

impl RequestError {
    /// What is said of the request.
    pub fn message(&self) -> (r: &'static str)
        ensures
            r@ == request_message(*self),
    {
        match self {
            RequestError::Path(e) => e.message(),
            RequestError::NoTarget =>
                "give --path or at least one of --name / --automation-id / --control-type",
            RequestError::NoRuns => "--runs must be at least 1",
        }
    }
}

/// Checks how many runs were asked for.
pub fn check_runs(runs: u32) -> (r: Result<(), RequestError>)
    ensures
        r == if runs >= 1 {
            Ok::<(), RequestError>(())
        } else {
            Err(RequestError::NoRuns)
        },
{
    if runs >= 1 {
        Ok(())
    } else {
        Err(RequestError::NoRuns)
    }
}

/// Whether a selector names nothing.
pub open spec fn names_nothing(sel: Selector) -> bool {
    sel.name is None && sel.automation_id is None && sel.control_type is None
}

/// Makes a request to act. A selector that names nothing counts as none.
pub fn act_request(
    scope: String,
    path: &str,
    select: Selector,
    action: String,
    value: Option<String>,
) -> (r: Result<ActArgs, RequestError>)
    ensures
        match indices_read(entries_of(pieces(path@, ','))) {
            Err(e) => r == Err::<ActArgs, RequestError>(RequestError::Path(e)),
            Ok(indices) => if indices.len() == 0 && names_nothing(select) {
                r == Err::<ActArgs, RequestError>(RequestError::NoTarget)
            } else {
                &&& r is Ok
                &&& r->Ok_0.scope == scope
                &&& r->Ok_0.path@ == indices
                &&& r->Ok_0.select == if names_nothing(select) {
                    None::<Selector>
                } else {
                    Some(select)
                }
                &&& r->Ok_0.action == action
                &&& r->Ok_0.value == value
            },
        },
{
    let path = match parse_path(path) {
        Ok(path) => path,
        Err(e) => {
            return Err(RequestError::Path(e));
        },
    };
    let select = if select.is_empty() {
        None
    } else {
        Some(select)
    };
    if path.len() == 0 && select.is_none() {
        return Err(RequestError::NoTarget);
    }
    Ok(ActArgs { scope, select, path, action, value })
}

/// The names of the ways of looking, and nothing else, find them.
pub proof fn law_detail_names(s: Seq<char>)
    ensures
        detail_named(s) == Some(Detail::Text) <==> s == "text"@,
        detail_named(s) == Some(Detail::Image) <==> s == "image"@,
        detail_named(s) == Some(Detail::Diff) <==> s == "diff"@,
{
    reveal_strlit("text");
    reveal_strlit("image");
    reveal_strlit("diff");
    assert("text"@.len() == 4 && "image"@.len() == 5 && "diff"@.len() == 4);
    assert("text"@[0] == 't' && "diff"@[0] == 'd');
}

/// The entries of a list are its pieces without the white space around them,
/// in order; a piece that is nothing but white space is none.
pub proof fn law_entries_come_from_the_pieces(a: Seq<Seq<char>>, b: Seq<Seq<char>>, row: Seq<char>)
    ensures
        entries_of(a + b) == entries_of(a) + entries_of(b),
        entries_of(seq![row]) == if trimmed(row).len() > 0 {
            seq![trimmed(row)]
        } else {
            Seq::<Seq<char>>::empty()
        },
    decreases b.len(),
{
    let one = seq![row];
    assert(one.drop_last() =~= Seq::<Seq<char>>::empty());
    assert(entries_of(Seq::<Seq<char>>::empty()) =~= Seq::<Seq<char>>::empty());
    assert(one.last() == row);
    assert(Seq::<Seq<char>>::empty().push(trimmed(row)) =~= seq![trimmed(row)]);
    if b.len() == 0 {
        assert(a + b =~= a);
        assert(entries_of(a) + entries_of(b) =~= entries_of(a));
    } else {
        assert((a + b).drop_last() =~= a + b.drop_last());
        assert((a + b).last() == b.last());
        law_entries_come_from_the_pieces(a, b.drop_last(), row);
        assert(entries_of(a + b) =~= entries_of(a) + entries_of(b));
    }
}

/// An entry of a path is an index exactly where it is a whole number in
/// digits, with a plus sign or without, that thirty-two bits hold. It is too
/// large exactly where some of its digits from the left on are, whatever
/// follows them; any other fault is in a character. `digits` is the entry
/// without the sign, unless the sign is all of it.
pub proof fn law_index_is_a_whole_number(s: Seq<char>, digits: Seq<char>)
    requires
        (s == digits && !(s.len() > 1 && s[0] == '+')) || (digits.len() > 0 && s == seq!['+']
            + digits),
    ensures
        index_read(s) matches Ok(n) ==> unsigned_read(s) == Some(n as int),
        unsigned_read(s) matches Some(n) ==> index_read(s) is Ok || n > 0xffff_ffff,
        index_read(s) == Err::<u32, PathError>(PathError::TooLarge) <==> exists|k: int|
            0 <= k <= digits.len() && all_digits(#[trigger] digits.take(k)) && digits_value(
                digits.take(k),
            ) > 0xffff_ffff,
{
    if s != digits {
        assert(s.drop_first() =~= digits);
    }
    assert(unsigned_part(s) == digits);
    let lead = leading_digits(digits);
    let run = digits.take(lead);
    lemma_leading_bounds(digits);
    assert(all_digits(run)) by {
        assert forall|i: int| 0 <= i < run.len() implies is_digit(#[trigger] run[i]) by {
            assert(run[i] == digits[i]);
        }
    }
    lemma_digits_grow(run, 0);
    if s.len() == 1 && s[0] == '+' {
        assert(s.drop_first() =~= Seq::<char>::empty());
        assert(!is_digit(s[0]));
    }
    if lead == digits.len() {
        assert(run =~= digits);
        if lead > 0 {
            assert(is_digit(digits[0]));
        }
    } else {
        assert(!is_digit(digits[lead]));
    }
    if digits_value(run) > 0xffff_ffff {
        assert(all_digits(digits.take(lead)));
    }
    assert forall|k: int|
        0 <= k <= digits.len() && all_digits(#[trigger] digits.take(k)) && digits_value(
            digits.take(k),
        ) > 0xffff_ffff implies digits_value(run) > 0xffff_ffff by {
        if k > lead {
            assert(digits.take(k)[lead] == digits[lead]);
        }
        assert(run.take(k) =~= digits.take(k));
        lemma_digits_grow(run, k);
    }
}

/// A path is read entry by entry: it is the indices of all its entries, in
/// order, or the fault of the first entry that has one.
pub proof fn law_path_is_read_entry_by_entry(rows: Seq<Seq<char>>)
    ensures
        match indices_read(rows) {
            Ok(path) => {
                &&& path.len() == rows.len()
                &&& forall|i: int|
                    0 <= i < rows.len() ==> index_read(#[trigger] rows[i]) == Ok::<u32, PathError>(
                        path[i],
                    )
            },
            Err(e) => exists|i: int|
                {
                    &&& 0 <= i < rows.len()
                    &&& index_read(#[trigger] rows[i]) == Err::<u32, PathError>(e)
                    &&& forall|j: int| 0 <= j < i ==> index_read(#[trigger] rows[j]) is Ok
                },
        },
    decreases rows.len(),
{
    if rows.len() > 0 {
        let init = rows.drop_last();
        let last = rows.len() - 1;
        law_path_is_read_entry_by_entry(init);
        match indices_read(init) {
            Err(e) => {
                let i = choose|i: int|
                    {
                        &&& 0 <= i < init.len()
                        &&& index_read(#[trigger] init[i]) == Err::<u32, PathError>(e)
                        &&& forall|j: int| 0 <= j < i ==> index_read(#[trigger] init[j]) is Ok
                    };
                assert(rows[i] == init[i]);
                assert forall|j: int| 0 <= j < i implies index_read(#[trigger] rows[j]) is Ok by {
                    assert(rows[j] == init[j]);
                }
            },
            Ok(before) => {
                assert forall|j: int| 0 <= j < last implies index_read(#[trigger] rows[j]) == Ok::<
                    u32,
                    PathError,
                >(before[j]) by {
                    assert(rows[j] == init[j]);
                }
                assert(rows[last] == rows.last());
            },
        }
    }
}

/// Some indices as text, with commas between them.
pub open spec fn path_text(path: Seq<u32>) -> Seq<char>
    decreases path.len(),
{
    if path.len() == 0 {
        Seq::<char>::empty()
    } else if path.len() == 1 {
        decimal(path[0] as nat)
    } else {
        path_text(path.drop_last()).push(',') + decimal(path.last() as nat)
    }
}

proof fn lemma_index_of_decimal(n: u32)
    ensures
        index_read(decimal(n as nat)) == Ok::<u32, PathError>(n),
        trimmed(decimal(n as nat)) == decimal(n as nat),
        decimal(n as nat).len() > 0,
        free_of(decimal(n as nat), ','),
{
    let s = decimal(n as nat);
    law_decimal_reads_back(n as int);
    assert(decimal_int(n as int) == s);
    lemma_decimal_int_free(n as int, '+');
    law_index_is_a_whole_number(s, s);
    lemma_decimal_int_free(n as int, ',');
    assert(s.len() > 0);
    assert(s[0] != '+');
    assert(all_digits(s));
    assert(is_digit(s[0]) && is_digit(s[s.len() - 1]));
    let (front, back) = law_trimming_takes_white_space_alone(s);
    if front.len() > 0 {
        assert(s[0] == front[0]);
    }
    if back.len() > 0 {
        assert(s[s.len() - 1] == back[back.len() - 1]);
    }
    assert(front + trimmed(s) + back =~= trimmed(s));
}

/// A path that was written with commas between its indices reads back as
/// itself.
pub proof fn law_path_reads_back(path: Seq<u32>)
    requires
        path.len() > 0,
    ensures
        indices_read(entries_of(pieces(path_text(path), ','))) == Ok::<Seq<u32>, PathError>(path),
    decreases path.len(),
{
    let n = path.last();
    let text = decimal(n as nat);
    lemma_index_of_decimal(n);
    let init = path.drop_last();
    law_separator_parts_pieces(path_text(init), ',', text, text);
    law_entries_come_from_the_pieces(pieces(path_text(init), ','), seq![text], text);
    if path.len() == 1 {
        assert(path[0] == n);
        let one = seq![text];
        assert(one.drop_last() =~= Seq::<Seq<char>>::empty());
        assert(indices_read(Seq::<Seq<char>>::empty()) == Ok::<Seq<u32>, PathError>(
            Seq::<u32>::empty(),
        ));
        assert(one.last() == text);
        assert(Seq::<u32>::empty().push(n) =~= path);
    } else {
        law_path_reads_back(init);
        let before = entries_of(pieces(path_text(init), ','));
        assert((before + seq![text]).drop_last() =~= before);
        assert((before + seq![text]).last() == text);
        assert(init.push(n) =~= path);
    }
}

/// A path over sequences is the same path, and a fault the same fault; a
/// selector names nothing exactly where none of its fields is given.
pub proof fn law_path_result_is_the_path(r: Result<Vec<u32>, PathError>, sel: Selector)
    ensures
        r matches Ok(v) ==> path_result(r) == Ok::<Seq<u32>, PathError>(v@),
        r matches Err(e) ==> path_result(r) == Err::<Seq<u32>, PathError>(e),
        !names_nothing(sel) <==> sel.name is Some || sel.automation_id is Some
            || sel.control_type is Some,
{
}

/// What is said of a name that no way of looking has gives the name back.
pub proof fn law_unknown_detail_is_named(s: Seq<char>)
    ensures
        begins_with(unknown_detail_message(s), "unknown detail '"@ + s + "'"@),
{
    reveal_strlit("'");
    reveal_strlit("' (text|image|diff)");
    let head = "unknown detail '"@ + s + "'"@;
    assert(unknown_detail_message(s).take(head.len() as int) =~= head);
}

} // verus!
