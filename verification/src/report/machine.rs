//! Describing the machine: its core count in plain words, and Linux's CPU lists.

use vstd::prelude::*;
use vstd::string::{StrSliceExecFns, StringExecFns};

use crate::parse::{chars_of, parse_usize, parsed_usize};
use crate::report::text::{decimal, decimal_string, push_char};

verus! {

/// The split into performance and efficiency cores, when it adds up to `physical`.
pub open spec fn fitting_split(physical: nat, types: Option<(usize, usize)>) -> bool {
    match types {
        Some((performance, efficiency)) => performance + efficiency == physical,
        None => false,
    }
}

/// The core count in plain words, e.g. "8 (16 threads)" or "11 (5 performance, 6 efficiency)".
/// Fewer CPUs than cores means the OS or a container limits what may be used; a split that
/// doesn't add up to the cores is left out.
pub open spec fn cores_text(logical: nat, physical: nat, types: Option<(usize, usize)>) -> Seq<
    char,
> {
    let count = if logical < physical {
        decimal(logical) + " available, of "@ + decimal(physical)
    } else {
        decimal(physical)
    };
    let threads = decimal(logical) + " threads"@;
    let split = match types {
        Some((performance, efficiency)) => decimal(performance as nat) + " performance, "@
            + decimal(efficiency as nat) + " efficiency"@,
        None => Seq::empty(),
    };
    if logical > physical && fitting_split(physical, types) {
        count + " ("@ + threads + ", "@ + split + ")"@
    } else if logical > physical {
        count + " ("@ + threads + ")"@
    } else if fitting_split(physical, types) {
        count + " ("@ + split + ")"@
    } else {
        count
    }
}

/// How the core count reads when the system reports a performance/efficiency split of
/// `performance` and `efficiency` cores. The count is the cores, or "n available, of m"
/// when fewer CPUs than cores may be used. In brackets come the threads, when the cores run
/// more than one each, and then the split, when it adds up to the cores, joined by ", ".
/// A split that doesn't add up reads as no split at all.
pub proof fn lemma_cores_text_with_split(
    logical: nat,
    physical: nat,
    performance: usize,
    efficiency: usize,
)
    ensures
        ({
            let text = cores_text(logical, physical, Some((performance, efficiency)));
            let split = decimal(performance as nat) + " performance, "@ + decimal(
                efficiency as nat,
            ) + " efficiency"@;
            &&& performance + efficiency == physical && logical > physical ==> text == decimal(
                physical,
            ) + " ("@ + decimal(logical) + " threads"@ + ", "@ + split + ")"@
            &&& performance + efficiency == physical && logical == physical ==> text == decimal(
                physical,
            ) + " ("@ + split + ")"@
            &&& performance + efficiency == physical && logical < physical ==> text == decimal(
                logical,
            ) + " available, of "@ + decimal(physical) + " ("@ + split + ")"@
            &&& performance + efficiency != physical ==> text == cores_text(
                logical,
                physical,
                None,
            )
        }),
{
}

/// How the core count reads with no performance/efficiency split: the cores, with the
/// threads in brackets when the cores run more than one each; or "n available, of m" when
/// fewer CPUs than cores may be used.
pub proof fn lemma_cores_text_without_split(logical: nat, physical: nat)
    ensures
        logical > physical ==> cores_text(logical, physical, None) == decimal(physical) + " ("@
            + decimal(logical) + " threads"@ + ")"@,
        logical == physical ==> cores_text(logical, physical, None) == decimal(physical),
        logical < physical ==> cores_text(logical, physical, None) == decimal(logical)
            + " available, of "@ + decimal(physical),
{
}

/// The core count in plain words, e.g. "8 (16 threads)" or "11 (5 performance, 6 efficiency)".
pub fn describe_cores(logical: usize, physical: usize, types: Option<(usize, usize)>) -> (text:
    String)
    ensures
        text@ == cores_text(logical as nat, physical as nat, types),
{
    proof {
        reveal_strlit(" available, of ");
        reveal_strlit(" threads");
        reveal_strlit(" performance, ");
        reveal_strlit(" efficiency");
        reveal_strlit(" (");
        reveal_strlit(", ");
        reveal_strlit(")");
    }
    // fewer CPUs than cores means the OS or a container limits what this program can use
    let mut text = if logical < physical {
        let mut count = decimal_string(logical);
        count.append(" available, of ");
        let total = decimal_string(physical);
        count.append(total.as_str());
        count
    } else {
        decimal_string(physical)
    };
    // a split that doesn't add up means an unexpected layout, so leave it out
    let fits = match types {
        Some((performance, efficiency)) => performance <= physical && efficiency == physical
            - performance,
        None => false,
    };
    if logical > physical || fits {
        text.append(" (");
        if logical > physical {
            let threads = decimal_string(logical);
            text.append(threads.as_str());
            text.append(" threads");
        }
        if let Some((performance, efficiency)) = types {
            if fits {
                if logical > physical {
                    text.append(", ");
                }
                let p = decimal_string(performance);
                text.append(p.as_str());
                text.append(" performance, ");
                let e = decimal_string(efficiency);
                text.append(e.as_str());
                text.append(" efficiency");
            }
        }
        text.append(")");
    }
    assert(text@ =~= cores_text(logical as nat, physical as nat, types));
    text
}

} // verus!

verus! {

/// A character with the Unicode White_Space property, as `char::is_whitespace` defines it.
pub open spec fn is_white_space(c: char) -> bool {
    let u = c as u32;
    ||| 0x09 <= u <= 0x0d
    ||| u == 0x20
    ||| u == 0x85
    ||| u == 0xa0
    ||| u == 0x1680
    ||| 0x2000 <= u <= 0x200a
    ||| u == 0x2028
    ||| u == 0x2029
    ||| u == 0x202f
    ||| u == 0x205f
    ||| u == 0x3000
}

/// `text` without its leading white space.
pub open spec fn trim_start(text: Seq<char>) -> Seq<char>
    decreases text.len(),
{
    if text.len() > 0 && is_white_space(text[0]) {
        trim_start(text.drop_first())
    } else {
        text
    }
}

/// `text` without its trailing white space.
pub open spec fn trim_end(text: Seq<char>) -> Seq<char>
    decreases text.len(),
{
    if text.len() > 0 && is_white_space(text.last()) {
        trim_end(text.drop_last())
    } else {
        text
    }
}

/// `text` without leading and trailing white space, as `str::trim` gives it.
pub open spec fn trimmed(text: Seq<char>) -> Seq<char> {
    trim_end(trim_start(text))
}

/// Where `c` first occurs in `text`, or the length of `text` if it doesn't.
pub open spec fn first_index(text: Seq<char>, c: char) -> nat
    decreases text.len(),
{
    if text.len() == 0 {
        0
    } else if text[0] == c {
        0
    } else {
        1 + first_index(text.drop_first(), c)
    }
}

/// The CPUs `first` to `last`, both included; none when `first` is past `last`.
pub open spec fn cpu_range(first: usize, last: usize) -> Seq<usize> {
    Seq::new(
        if first <= last {
            (last - first + 1) as nat
        } else {
            0
        },
        |k: int| (first + k) as usize,
    )
}

/// One entry of a CPU list: a CPU, or a range such as "0-3".
pub open spec fn parsed_entry(entry: Seq<char>) -> Option<Seq<usize>> {
    let dash = first_index(entry, '-');
    if dash < entry.len() {
        match (parsed_usize(entry.take(dash as int)), parsed_usize(entry.skip(dash + 1int))) {
            (Some(first), Some(last)) => Some(cpu_range(first, last)),
            _ => None,
        }
    } else {
        match parsed_usize(entry) {
            Some(cpu) => Some(seq![cpu]),
            None => None,
        }
    }
}

/// Comma-separated entries of a CPU list, expanded one after the other.
pub open spec fn parsed_entries(text: Seq<char>) -> Option<Seq<usize>>
    decreases text.len(),
{
    let comma = first_index(text, ',');
    let head = parsed_entry(text.take(comma as int));
    if comma >= text.len() {
        head
    } else {
        match (head, parsed_entries(text.skip(comma + 1int))) {
            (Some(first), Some(rest)) => Some(first + rest),
            _ => None,
        }
    }
}

/// A Linux CPU list such as "0-3,8", surrounded by white space or not, expanded.
pub open spec fn parsed_cpu_list(list: Seq<char>) -> Option<Seq<usize>> {
    parsed_entries(trimmed(list))
}

/// `first` followed by what `rest` holds, if anything.
pub open spec fn then(first: Seq<usize>, rest: Option<Seq<usize>>) -> Option<Seq<usize>> {
    match rest {
        Some(r) => Some(first + r),
        None => None,
    }
}

proof fn lemma_first_index(text: Seq<char>, c: char, k: int)
    requires
        0 <= k <= text.len(),
        forall|i: int| 0 <= i < k ==> text[i] != c,
        k == text.len() || text[k] == c,
    ensures
        first_index(text, c) == k,
    decreases k,
{
    if k > 0 {
        lemma_first_index(text.drop_first(), c, k - 1);
    }
}

proof fn lemma_trim_start(text: Seq<char>, k: int)
    requires
        0 <= k <= text.len(),
        forall|i: int| 0 <= i < k ==> is_white_space(#[trigger] text[i]),
        k == text.len() || !is_white_space(text[k]),
    ensures
        trim_start(text) == text.subrange(k, text.len() as int),
    decreases k,
{
    if k > 0 {
        lemma_trim_start(text.drop_first(), k - 1);
        assert(text.drop_first().subrange(k - 1, text.len() - 1) =~= text.subrange(
            k,
            text.len() as int,
        ));
    } else {
        assert(text.subrange(0, text.len() as int) =~= text);
    }
}

proof fn lemma_trim_end(text: Seq<char>, k: int)
    requires
        0 <= k <= text.len(),
        forall|i: int| k <= i < text.len() ==> is_white_space(#[trigger] text[i]),
        k == 0 || !is_white_space(text[k - 1]),
    ensures
        trim_end(text) == text.subrange(0, k),
    decreases text.len() - k,
{
    if k < text.len() {
        lemma_trim_end(text.drop_last(), k);
        assert(text.drop_last().subrange(0, k) =~= text.subrange(0, k));
    } else {
        assert(text.subrange(0, k) =~= text);
    }
}

/// The character `c` has the Unicode White_Space property.
fn white_space(c: char) -> (w: bool)
    ensures
        w == is_white_space(c),
{
    let u = c as u32;
    (0x09 <= u && u <= 0x0d) || u == 0x20 || u == 0x85 || u == 0xa0 || u == 0x1680 || (0x2000
        <= u && u <= 0x200a) || u == 0x2028 || u == 0x2029 || u == 0x202f || u == 0x205f || u
        == 0x3000
}


} // verus!

verus! {

/// The bounds of `chars[lo..hi]` without its leading and trailing white space.
fn trim_range(chars: &Vec<char>, lo: usize, hi: usize) -> (bounds: (usize, usize))
    requires
        lo <= hi <= chars@.len(),
    ensures
        lo <= bounds.0 <= bounds.1 <= hi,
        trimmed(chars@.subrange(lo as int, hi as int)) == chars@.subrange(
            bounds.0 as int,
            bounds.1 as int,
        ),
{
    let ghost whole = chars@.subrange(lo as int, hi as int);
    let mut start = lo;
    while start < hi && white_space(chars[start])
        invariant
            lo <= start <= hi <= chars@.len(),
            forall|i: int| lo <= i < start ==> is_white_space(#[trigger] chars@[i]),
        decreases hi - start,
    {
        start = start + 1;
    }
    let mut end = hi;
    while end > start && white_space(chars[end - 1])
        invariant
            lo <= start <= end <= hi <= chars@.len(),
            forall|i: int| end <= i < hi ==> is_white_space(#[trigger] chars@[i]),
        decreases end - start,
    {
        end = end - 1;
    }
    proof {
        assert forall|i: int| 0 <= i < start - lo implies is_white_space(#[trigger] whole[i]) by {
            assert(whole[i] == chars@[lo + i]);
        }
        lemma_trim_start(whole, start - lo);
        let rest = chars@.subrange(start as int, hi as int);
        assert(whole.subrange(start - lo, whole.len() as int) =~= rest);
        assert forall|i: int| end - start <= i < rest.len() implies is_white_space(
            #[trigger] rest[i],
        ) by {
            assert(rest[i] == chars@[start + i]);
        }
        lemma_trim_end(rest, end - start);
        assert(rest.subrange(0, end - start) =~= chars@.subrange(start as int, end as int));
    }
    (start, end)
}

/// The first index from `lo` on, below `hi`, that holds `c`; `hi` if none does.
fn find_char(chars: &Vec<char>, lo: usize, hi: usize, c: char) -> (at: usize)
    requires
        lo <= hi <= chars@.len(),
    ensures
        lo <= at <= hi,
        first_index(chars@.subrange(lo as int, hi as int), c) == at - lo,
{
    let mut at = lo;
    while at < hi && chars[at] != c
        invariant
            lo <= at <= hi <= chars@.len(),
            forall|i: int| lo <= i < at ==> chars@[i] != c,
        decreases hi - at,
    {
        at = at + 1;
    }
    proof {
        lemma_first_index(chars@.subrange(lo as int, hi as int), c, at - lo);
    }
    at
}

/// Appends the CPUs `first` to `last`, both included.
fn push_range(cpus: &mut Vec<usize>, first: usize, last: usize)
    ensures
        final(cpus)@ == old(cpus)@ + cpu_range(first, last),
{
    if first > last {
        assert(cpu_range(first, last) =~= Seq::<usize>::empty());
        assert(cpus@ =~= old(cpus)@ + cpu_range(first, last));
        return;
    }
    let mut cpu = first;
    assert(cpus@ =~= old(cpus)@ + Seq::new(0, |k: int| (first + k) as usize));
    loop
        invariant
            first <= cpu <= last,
            cpus@ == old(cpus)@ + Seq::new((cpu - first) as nat, |k: int| (first + k) as usize),
        decreases last - cpu,
    {
        cpus.push(cpu);
        assert(cpus@ =~= old(cpus)@ + Seq::new((cpu + 1 - first) as nat, |k: int| (first + k) as usize));
        if cpu == last {
            assert(cpus@ =~= old(cpus)@ + cpu_range(first, last));
            return;
        }
        cpu = cpu + 1;
    }
}

/// Expands the entry `chars[lo..hi]` onto `cpus`; false, leaving `cpus` as it was,
/// when the entry isn't a CPU or a range of them.
fn push_entry(chars: &Vec<char>, lo: usize, hi: usize, cpus: &mut Vec<usize>) -> (ok: bool)
    requires
        lo <= hi <= chars@.len(),
    ensures
        ok == parsed_entry(chars@.subrange(lo as int, hi as int)) is Some,
        ok ==> final(cpus)@ == old(cpus)@ + parsed_entry(
            chars@.subrange(lo as int, hi as int),
        )->0,
        !ok ==> final(cpus)@ == old(cpus)@,
{
    let ghost entry = chars@.subrange(lo as int, hi as int);
    let dash = find_char(chars, lo, hi, '-');
    if dash < hi {
        assert(entry.take(dash - lo) =~= chars@.subrange(lo as int, dash as int));
        assert(entry.skip(dash - lo + 1) =~= chars@.subrange(dash + 1, hi as int));
        match (parse_usize(chars, lo, dash), parse_usize(chars, dash + 1, hi)) {
            (Ok(first), Ok(last)) => {
                push_range(cpus, first, last);
                true
            },
            _ => false,
        }
    } else {
        match parse_usize(chars, lo, hi) {
            Ok(cpu) => {
                cpus.push(cpu);
                true
            },
            Err(_) => false,
        }
    }
}

/// Expands a Linux CPU list such as "0-3,8" into [0, 1, 2, 3, 8].
pub fn parse_cpu_list(list: &str) -> (cpus: Option<Vec<usize>>)
    ensures
        match cpus {
            Some(c) => parsed_cpu_list(list@) == Some(c@),
            None => parsed_cpu_list(list@) is None,
        },
{
    let chars = chars_of(list);
    let len = chars.len();
    let (lo, hi) = trim_range(&chars, 0, len);
    let ghost text = chars@.subrange(lo as int, hi as int);
    assert(chars@.subrange(0, len as int) =~= list@);
    let mut cpus: Vec<usize> = Vec::new();
    let mut pos = lo;
    loop
        invariant
            lo <= pos <= hi <= len == chars@.len(),
            parsed_cpu_list(list@) == then(cpus@, parsed_entries(chars@.subrange(pos as int, hi as int))),
        decreases hi - pos,
    {
        let ghost rest = chars@.subrange(pos as int, hi as int);
        let end = find_char(&chars, pos, hi, ',');
        assert(rest.take(end - pos) =~= chars@.subrange(pos as int, end as int));
        let ghost before = cpus@;
        if !push_entry(&chars, pos, end, &mut cpus) {
            return None;
        }
        if end == hi {
            return Some(cpus);
        }
        assert(rest.skip(end - pos + 1) =~= chars@.subrange(end + 1, hi as int));
        proof {
            let head = parsed_entry(rest.take(end - pos))->0;
            match parsed_entries(chars@.subrange(end + 1, hi as int)) {
                Some(tail) => {
                    assert(before + (head + tail) =~= (before + head) + tail);
                },
                None => {},
            }
        }
        pos = end + 1;
    }
}

} // verus!

verus! {

/// Where the first white space of `text` is, or its length if it has none.
pub open spec fn first_white_space(text: Seq<char>) -> nat
    decreases text.len(),
{
    if text.len() == 0 {
        0
    } else if is_white_space(text[0]) {
        0
    } else {
        1 + first_white_space(text.drop_first())
    }
}

/// Trimming never lengthens a text, and what is left starts with a character that isn't
/// white space.
pub proof fn lemma_trim_start_shape(text: Seq<char>)
    ensures
        trim_start(text).len() <= text.len(),
        trim_start(text).len() > 0 ==> !is_white_space(trim_start(text)[0]),
    decreases text.len(),
{
    if text.len() > 0 && is_white_space(text[0]) {
        lemma_trim_start_shape(text.drop_first());
    }
}

/// The first white space lies within the text, and past its first character when that
/// one isn't white space.
pub proof fn lemma_first_white_space_shape(text: Seq<char>)
    ensures
        first_white_space(text) <= text.len(),
        text.len() > 0 && !is_white_space(text[0]) ==> first_white_space(text) >= 1,
    decreases text.len(),
{
    if text.len() > 0 && !is_white_space(text[0]) {
        lemma_first_white_space_shape(text.drop_first());
    }
}

/// The words of `text`, the runs of characters between white space, as
/// `str::split_whitespace` gives them.
pub open spec fn words(text: Seq<char>) -> Seq<Seq<char>>
    decreases text.len(),
{
    let rest = trim_start(text);
    if rest.len() == 0 {
        Seq::empty()
    } else {
        let k = first_white_space(rest);
        proof {
            lemma_trim_start_shape(text);
            lemma_first_white_space_shape(rest);
        }
        seq![rest.take(k as int)] + words(rest.skip(k as int))
    }
}

/// The words, one space between each two.
pub open spec fn joined(words: Seq<Seq<char>>) -> Seq<char>
    decreases words.len(),
{
    if words.len() == 0 {
        Seq::empty()
    } else if words.len() == 1 {
        words[0]
    } else {
        joined(words.drop_last()) + seq![' '] + words.last()
    }
}

/// A name as the report shows it: its words with single spaces between, as some CPUs
/// pad their names with runs of spaces; none when it has no words.
pub open spec fn cpu_name_text(raw: Seq<char>) -> Option<Seq<char>> {
    let name = joined(words(raw));
    if name.len() == 0 {
        None
    } else {
        Some(name)
    }
}

/// The lines of `text`, split at line feeds, without an empty line after a last line feed.
pub open spec fn text_lines(text: Seq<char>) -> Seq<Seq<char>>
    decreases text.len(),
{
    if text.len() == 0 {
        Seq::empty()
    } else {
        let i = first_index(text, '\n');
        if i >= text.len() {
            seq![text]
        } else {
            seq![text.take(i as int)] + text_lines(text.skip(i + 1int))
        }
    }
}

/// The value of a `/proc/cpuinfo` line that names the CPU's model: x86 calls it
/// "model name", some ARM boards only have "Model".
pub open spec fn model_value(line: Seq<char>) -> Option<Seq<char>> {
    let colon = first_index(line, ':');
    if colon < line.len() && (trimmed(line.take(colon as int)) == "model name"@ || trimmed(
        line.take(colon as int),
    ) == "Model"@) {
        Some(line.skip(colon + 1int))
    } else {
        None
    }
}

/// The value of the first line that names the model.
pub open spec fn first_model_value(lines: Seq<Seq<char>>) -> Option<Seq<char>>
    decreases lines.len(),
{
    if lines.len() == 0 {
        None
    } else {
        match model_value(lines[0]) {
            Some(value) => Some(value),
            None => first_model_value(lines.drop_first()),
        }
    }
}

/// The CPU's model name in Linux's `/proc/cpuinfo`.
pub open spec fn cpuinfo_model(cpuinfo: Seq<char>) -> Option<Seq<char>> {
    match first_model_value(text_lines(cpuinfo)) {
        Some(value) => cpu_name_text(value),
        None => None,
    }
}

proof fn lemma_first_white_space(text: Seq<char>, k: int)
    requires
        0 <= k <= text.len(),
        forall|i: int| 0 <= i < k ==> !is_white_space(#[trigger] text[i]),
        k == text.len() || is_white_space(text[k]),
    ensures
        first_white_space(text) == k,
    decreases k,
{
    if k > 0 {
        lemma_first_white_space(text.drop_first(), k - 1);
    }
}

/// Whether `chars[lo..hi]` spells `word`.
fn spells(chars: &Vec<char>, lo: usize, hi: usize, word: &str) -> (same: bool)
    requires
        lo <= hi <= chars@.len(),
    ensures
        same == (chars@.subrange(lo as int, hi as int) == word@),
{
    let letters = chars_of(word);
    if hi - lo != letters.len() {
        return false;
    }
    let mut i: usize = 0;
    while i < letters.len()
        invariant
            lo <= hi <= chars@.len(),
            hi - lo == letters@.len(),
            letters@ == word@,
            i <= letters@.len(),
            forall|j: int| 0 <= j < i ==> chars@[lo + j] == #[trigger] letters@[j],
        decreases letters@.len() - i,
    {
        if chars[lo + i] != letters[i] {
            assert(chars@.subrange(lo as int, hi as int)[i as int] != word@[i as int]);
            return false;
        }
        i = i + 1;
    }
    assert(chars@.subrange(lo as int, hi as int) =~= word@);
    true
}

/// The words of `chars[lo..hi]`, one space between each two.
fn squeeze(chars: &Vec<char>, lo: usize, hi: usize) -> (text: String)
    requires
        lo <= hi <= chars@.len(),
    ensures
        text@ == joined(words(chars@.subrange(lo as int, hi as int))),
{
    let ghost all = chars@.subrange(lo as int, hi as int);
    let ghost mut done: Seq<Seq<char>> = Seq::empty();
    let mut text = String::new();
    let mut first_word = true;
    let mut pos = lo;
    assert(chars@.subrange(pos as int, hi as int) =~= all);
    loop
        invariant
            lo <= pos <= hi <= chars@.len(),
            all == chars@.subrange(lo as int, hi as int),
            words(all) == done + words(chars@.subrange(pos as int, hi as int)),
            text@ == joined(done),
            first_word == (done.len() == 0),
        decreases hi - pos,
    {
        let ghost rest = chars@.subrange(pos as int, hi as int);
        let mut start = pos;
        while start < hi && white_space(chars[start])
            invariant
                pos <= start <= hi <= chars@.len(),
                forall|i: int| pos <= i < start ==> is_white_space(#[trigger] chars@[i]),
            decreases hi - start,
        {
            start = start + 1;
        }
        proof {
            assert forall|i: int| 0 <= i < start - pos implies is_white_space(#[trigger] rest[i]) by {
                assert(rest[i] == chars@[pos + i]);
            }
            lemma_trim_start(rest, start - pos);
            assert(rest.subrange(start - pos, rest.len() as int) =~= chars@.subrange(
                start as int,
                hi as int,
            ));
        }
        if start == hi {
            assert(words(rest) =~= Seq::<Seq<char>>::empty());
            assert(done + Seq::<Seq<char>>::empty() =~= done);
            return text;
        }
        let mut end = start;
        while end < hi && !white_space(chars[end])
            invariant
                start <= end <= hi <= chars@.len(),
                forall|i: int| start <= i < end ==> !is_white_space(#[trigger] chars@[i]),
            decreases hi - end,
        {
            end = end + 1;
        }
        let ghost word = chars@.subrange(start as int, end as int);
        proof {
            let trimmed_rest = chars@.subrange(start as int, hi as int);
            assert forall|i: int| 0 <= i < end - start implies !is_white_space(
                #[trigger] trimmed_rest[i],
            ) by {
                assert(trimmed_rest[i] == chars@[start + i]);
            }
            lemma_first_white_space(trimmed_rest, end - start);
            assert(trimmed_rest.take(end - start) =~= word);
            assert(trimmed_rest.skip(end - start) =~= chars@.subrange(end as int, hi as int));
            assert(words(rest) == seq![word] + words(chars@.subrange(end as int, hi as int)));
        }
        if !first_word {
            push_char(&mut text, ' ');
        }
        let ghost before = text@;
        let mut i = start;
        while i < end
            invariant
                start <= i <= end <= hi <= chars@.len(),
                text@ == before + chars@.subrange(start as int, i as int),
            decreases end - i,
        {
            push_char(&mut text, chars[i]);
            i = i + 1;
            assert(text@ =~= before + chars@.subrange(start as int, i as int));
        }
        proof {
            let next = done.push(word);
            assert(next.drop_last() =~= done);
            if done.len() == 0 {
                assert(text@ =~= joined(next));
            } else {
                assert(text@ =~= joined(next));
            }
            assert(done + (seq![word] + words(chars@.subrange(end as int, hi as int))) =~= next
                + words(chars@.subrange(end as int, hi as int)));
            done = next;
        }
        first_word = false;
        pos = end;
    }
}

/// A CPU's name as the report shows it: its words with single spaces between, as some
/// CPUs pad their names with runs of spaces; none when it has no words.
pub fn cpu_name(raw: &str) -> (name: Option<String>)
    ensures
        match name {
            Some(n) => cpu_name_text(raw@) == Some(n@),
            None => cpu_name_text(raw@) is None,
        },
{
    let chars = chars_of(raw);
    assert(chars@.subrange(0, chars@.len() as int) =~= raw@);
    let name = squeeze(&chars, 0, chars.len());
    if name.as_str().unicode_len() == 0 {
        None
    } else {
        Some(name)
    }
}

/// The CPU's model name in Linux's `/proc/cpuinfo`.
pub fn cpu_model_from_cpuinfo(cpuinfo: &str) -> (model: Option<String>)
    ensures
        match model {
            Some(m) => cpuinfo_model(cpuinfo@) == Some(m@),
            None => cpuinfo_model(cpuinfo@) is None,
        },
{
    let chars = chars_of(cpuinfo);
    let len = chars.len();
    assert(chars@.subrange(0, len as int) =~= cpuinfo@);
    let mut pos: usize = 0;
    loop
        invariant
            pos <= len == chars@.len(),
            first_model_value(text_lines(cpuinfo@)) == first_model_value(
                text_lines(chars@.subrange(pos as int, len as int)),
            ),
        decreases len - pos,
    {
        let ghost rest = chars@.subrange(pos as int, len as int);
        if pos == len {
            return None;
        }
        let end = find_char(&chars, pos, len, '\n');
        let ghost line = chars@.subrange(pos as int, end as int);
        let ghost lines = text_lines(rest);
        proof {
            assert(rest.take(end - pos) =~= line);
            if end < len {
                assert(rest.skip(end - pos + 1) =~= chars@.subrange(end + 1, len as int));
                assert(lines == seq![line] + text_lines(chars@.subrange(end + 1, len as int)));
                assert(lines[0] == line);
                assert(lines.drop_first() =~= text_lines(chars@.subrange(end + 1, len as int)));
            } else {
                assert(rest =~= line);
            }
        }
        let colon = find_char(&chars, pos, end, ':');
        if colon < end {
            let (key_start, key_end) = trim_range(&chars, pos, colon);
            assert(line.take(colon - pos) =~= chars@.subrange(pos as int, colon as int));
            if spells(&chars, key_start, key_end, "model name") || spells(
                &chars,
                key_start,
                key_end,
                "Model",
            ) {
                assert(line.skip(colon - pos + 1) =~= chars@.subrange(colon + 1, end as int));
                let name = squeeze(&chars, colon + 1, end);
                if name.as_str().unicode_len() == 0 {
                    return None;
                }
                return Some(name);
            }
        }
        if end == len {
            assert(model_value(line) is None);
            assert(first_model_value(seq![line].drop_first()) is None);
            return None;
        }
        pos = end + 1;
    }
}

} // verus!

verus! {

/// Each line, trimmed, read as a whole number; none if any line isn't one.
pub open spec fn parsed_lines(lines: Seq<Seq<char>>) -> Option<Seq<usize>>
    decreases lines.len(),
{
    if lines.len() == 0 {
        Some(Seq::empty())
    } else {
        match (parsed_usize(trimmed(lines[0])), parsed_lines(lines.drop_first())) {
            (Some(first), Some(rest)) => Some(seq![first] + rest),
            _ => None,
        }
    }
}

/// Performance and efficiency core counts in macOS's answer to `sysctl -n hw.nperflevels
/// hw.perflevel0.physicalcpu hw.perflevel1.physicalcpu`: three numbers, one per line,
/// the first of them 2.
pub open spec fn perf_level_counts(output: Seq<char>) -> Option<(usize, usize)> {
    match parsed_lines(text_lines(output)) {
        Some(counts) => if counts.len() == 3 && counts[0] == 2 {
            Some((counts[1], counts[2]))
        } else {
            None
        },
        None => None,
    }
}

/// Performance and efficiency core counts in macOS's answer to `sysctl -n hw.nperflevels
/// hw.perflevel0.physicalcpu hw.perflevel1.physicalcpu`.
pub fn perf_level_cores(output: &str) -> (cores: Option<(usize, usize)>)
    ensures
        cores == perf_level_counts(output@),
{
    let chars = chars_of(output);
    let len = chars.len();
    assert(chars@.subrange(0, len as int) =~= output@);
    let mut counts: Vec<usize> = Vec::new();
    let mut pos: usize = 0;
    loop
        invariant_except_break
            parsed_lines(text_lines(output@)) == then(
                counts@,
                parsed_lines(text_lines(chars@.subrange(pos as int, len as int))),
            ),
        invariant
            pos <= len == chars@.len(),
        ensures
            parsed_lines(text_lines(output@)) == Some(counts@),
        decreases len - pos,
    {
        let ghost rest = chars@.subrange(pos as int, len as int);
        if pos == len {
            assert(rest =~= Seq::<char>::empty());
            assert(counts@ + Seq::<usize>::empty() =~= counts@);
            break;
        }
        let end = find_char(&chars, pos, len, '\n');
        let ghost line = chars@.subrange(pos as int, end as int);
        let ghost lines = text_lines(rest);
        proof {
            assert(rest.take(end - pos) =~= line);
            if end < len {
                assert(rest.skip(end - pos + 1) =~= chars@.subrange(end + 1, len as int));
                assert(lines[0] == line);
                assert(lines.drop_first() =~= text_lines(chars@.subrange(end + 1, len as int)));
            } else {
                assert(rest =~= line);
                assert(lines.drop_first() =~= Seq::<Seq<char>>::empty());
            }
        }
        let (first, last) = trim_range(&chars, pos, end);
        let ghost before = counts@;
        match parse_usize(&chars, first, last) {
            Ok(count) => {
                counts.push(count);
                proof {
                    match parsed_lines(lines.drop_first()) {
                        Some(tail) => {
                            assert(before + (seq![count] + tail) =~= before.push(count) + tail);
                        },
                        None => {},
                    }
                }
            },
            Err(_) => {
                return None;
            },
        }
        if end == len {
            assert(counts@ + Seq::<usize>::empty() =~= counts@);
            break;
        }
        pos = end + 1;
    }
    if counts.len() == 3 && counts[0] == 2 {
        Some((counts[1], counts[2]))
    } else {
        None
    }
}

} // verus!

verus! {

/// How many cores the CPUs with these sibling lists make up: both threads of a
/// hyper-threaded core list the same siblings, so each distinct list, trimmed, is a core.
pub open spec fn distinct_cores(sibling_lists: Seq<Seq<char>>) -> nat {
    sibling_lists.map_values(|list: Seq<char>| trimmed(list)).to_set().len()
}

/// `chars[lo..hi]` as a string.
fn string_of(chars: &Vec<char>, lo: usize, hi: usize) -> (text: String)
    requires
        lo <= hi <= chars@.len(),
    ensures
        text@ == chars@.subrange(lo as int, hi as int),
{
    let mut text = String::new();
    let mut i = lo;
    while i < hi
        invariant
            lo <= i <= hi <= chars@.len(),
            text@ == chars@.subrange(lo as int, i as int),
        decreases hi - i,
    {
        push_char(&mut text, chars[i]);
        i = i + 1;
        assert(text@ =~= chars@.subrange(lo as int, i as int));
    }
    text
}

/// How many cores the CPUs with these sibling lists make up: both threads of a
/// hyper-threaded core list the same siblings, so each core counts once.
pub fn count_cores(sibling_lists: &[String]) -> (cores: usize)
    ensures
        cores == distinct_cores(sibling_lists@.map_values(|list: String| list@)),
{
    let ghost lists = sibling_lists@.map_values(|list: String| list@);
    let ghost trimmed_lists = lists.map_values(|list: Seq<char>| trimmed(list));
    let mut seen: Vec<String> = Vec::new();
    let mut i: usize = 0;
    while i < sibling_lists.len()
        invariant
            i <= sibling_lists@.len(),
            lists == sibling_lists@.map_values(|list: String| list@),
            trimmed_lists == lists.map_values(|list: Seq<char>| trimmed(list)),
            seen@.map_values(|s: String| s@).no_duplicates(),
            seen@.map_values(|s: String| s@).to_set() == trimmed_lists.take(i as int).to_set(),
        decreases sibling_lists@.len() - i,
    {
        let chars = chars_of(sibling_lists[i].as_str());
        let (lo, hi) = trim_range(&chars, 0, chars.len());
        assert(chars@.subrange(0, chars@.len() as int) =~= lists[i as int]);
        let list = string_of(&chars, lo, hi);
        let ghost views = seen@.map_values(|s: String| s@);
        let mut known = false;
        let mut j: usize = 0;
        while j < seen.len()
            invariant
                j <= seen@.len(),
                views == seen@.map_values(|s: String| s@),
                known == exists|k: int| 0 <= k < j && #[trigger] views[k] == list@,
            decreases seen@.len() - j,
        {
            assert(views[j as int] == seen@[j as int]@);
            if seen[j] == list {
                known = true;
            }
            j = j + 1;
        }
        let ghost entry = list@;
        assert(trimmed_lists.take(i + 1) =~= trimmed_lists.take(i as int).push(entry));
        if !known {
            seen.push(list);
            proof {
                let new_views = seen@.map_values(|s: String| s@);
                assert(new_views =~= views.push(entry));
                assert(!views.contains(entry));
                views.lemma_push_to_set_commute(entry);
                trimmed_lists.take(i as int).lemma_push_to_set_commute(entry);
            }
        } else {
            proof {
                let k = choose|k: int| 0 <= k < seen@.len() && #[trigger] views[k] == entry;
                assert(views.to_set().contains(entry));
                trimmed_lists.take(i as int).lemma_push_to_set_commute(entry);
                assert(views.to_set().insert(entry) =~= views.to_set());
            }
        }
        i = i + 1;
    }
    proof {
        let views = seen@.map_values(|s: String| s@);
        views.unique_seq_to_set();
        assert(trimmed_lists.take(sibling_lists@.len() as int) =~= trimmed_lists);
    }
    seen.len()
}

} // verus!

verus! {

/// The low-power efficiency cores that some laptop chips have, or none.
pub open spec fn low_power_count(low_power: Option<usize>) -> int {
    match low_power {
        Some(count) => count as int,
        None => 0,
    }
}

/// Performance and efficiency core counts from the counts of each kind of core: both main
/// kinds must be there, and low-power efficiency cores, where a chip has them, count as
/// efficiency cores.
pub open spec fn split_of(core: Option<usize>, atom: Option<usize>, low_power: Option<usize>) -> Option<
    (usize, usize),
> {
    match (core, atom) {
        (Some(performance), Some(efficiency)) => Some(
            (performance, (efficiency + low_power_count(low_power)) as usize),
        ),
        _ => None,
    }
}

/// Performance and efficiency core counts from the counts of each kind of core, as Linux
/// lists them: performance cores, efficiency cores and low-power efficiency cores.
pub fn core_split(core: Option<usize>, atom: Option<usize>, low_power: Option<usize>) -> (split:
    Option<(usize, usize)>)
    requires
        atom matches Some(a) ==> a + low_power_count(low_power) <= usize::MAX,
    ensures
        split == split_of(core, atom, low_power),
{
    let low = match low_power {
        Some(count) => count,
        None => 0,
    };
    match (core, atom) {
        (Some(performance), Some(efficiency)) => Some((performance, efficiency + low)),
        _ => None,
    }
}

} // verus!

verus! {

/// The pieces of `text` between the occurrences of `c`, as `str::split` gives them; an
/// empty text is one empty piece.
pub open spec fn split_on(text: Seq<char>, c: char) -> Seq<Seq<char>>
    decreases text.len(),
{
    let at = first_index(text, c);
    if at >= text.len() {
        seq![text]
    } else {
        seq![text.take(at as int)] + split_on(text.skip(at + 1int), c)
    }
}

/// The entries expanded one after the other; none if any entry isn't a CPU or a range.
pub open spec fn expanded(entries: Seq<Seq<char>>) -> Option<Seq<usize>>
    decreases entries.len(),
{
    if entries.len() == 0 {
        Some(Seq::empty())
    } else {
        match (parsed_entry(entries[0]), expanded(entries.drop_first())) {
            (Some(first), Some(rest)) => Some(first + rest),
            _ => None,
        }
    }
}

proof fn lemma_entries_split(text: Seq<char>)
    ensures
        parsed_entries(text) == expanded(split_on(text, ',')),
    decreases text.len(),
{
    let at = first_index(text, ',');
    let parts = split_on(text, ',');
    if at >= text.len() {
        assert(parts.drop_first() =~= Seq::<Seq<char>>::empty());
        assert(text.take(at as int) =~= text) by {
            lemma_first_index_bound(text, ',');
        }
        assert(parts[0] == text);
        assert(expanded(parts.drop_first()) == Some(Seq::<usize>::empty()));
        match parsed_entry(text) {
            Some(first) => {
                assert(first + Seq::<usize>::empty() =~= first);
            },
            None => {},
        }
    } else {
        lemma_entries_split(text.skip(at + 1int));
        assert(parts.drop_first() =~= split_on(text.skip(at + 1int), ','));
        assert(parts[0] == text.take(at as int));
    }
}

proof fn lemma_first_index_bound(text: Seq<char>, c: char)
    ensures
        first_index(text, c) <= text.len(),
    decreases text.len(),
{
    if text.len() > 0 && text[0] != c {
        lemma_first_index_bound(text.drop_first(), c);
    }
}

/// A CPU list reads as its trimmed text split at commas, each piece a CPU or a range
/// "first-last", expanded in order; the list is none when any piece is neither.
pub proof fn lemma_cpu_list_by_pieces(list: Seq<char>)
    ensures
        parsed_cpu_list(list) == expanded(split_on(trimmed(list), ',')),
{
    lemma_entries_split(trimmed(list));
}

} // verus!

verus! {

/// `name` isn't blank, and its only white space is single spaces, each between two
/// characters that aren't white space; so neither end is white space.
pub open spec fn single_spaced(name: Seq<char>) -> bool {
    &&& name.len() > 0
    &&& forall|i: int|
        0 <= i < name.len() && is_white_space(#[trigger] name[i]) ==> {
            &&& name[i] == ' '
            &&& 0 < i < name.len() - 1
            &&& !is_white_space(name[i - 1])
            &&& !is_white_space(name[i + 1])
        }
}

proof fn lemma_before_first_white_space(text: Seq<char>)
    ensures
        first_white_space(text) <= text.len(),
        forall|j: int| 0 <= j < first_white_space(text) ==> !is_white_space(#[trigger] text[j]),
    decreases text.len(),
{
    if text.len() > 0 && !is_white_space(text[0]) {
        let rest = text.drop_first();
        lemma_before_first_white_space(rest);
        assert forall|j: int| 0 <= j < first_white_space(text) implies !is_white_space(
            #[trigger] text[j],
        ) by {
            if j > 0 {
                assert(text[j] == rest[j - 1]);
            }
        }
    }
}

proof fn lemma_trim_start_suffix(text: Seq<char>)
    ensures
        trim_start(text).len() <= text.len(),
        trim_start(text) =~= text.skip(text.len() - trim_start(text).len()),
        forall|i: int|
            0 <= i < text.len() - trim_start(text).len() ==> is_white_space(#[trigger] text[i]),
    decreases text.len(),
{
    if text.len() > 0 && is_white_space(text[0]) {
        let rest = text.drop_first();
        lemma_trim_start_suffix(rest);
        let n = trim_start(rest).len();
        assert(rest.skip(rest.len() - n) =~= text.skip(text.len() - n));
        assert forall|i: int| 0 <= i < text.len() - n implies is_white_space(#[trigger] text[i]) by {
            if i > 0 {
                assert(text[i] == rest[i - 1]);
            }
        }
    } else {
        assert(text.skip(0) =~= text);
    }
}

proof fn lemma_words_shape(text: Seq<char>)
    ensures
        words(text).len() == 0 <==> forall|i: int|
            0 <= i < text.len() ==> is_white_space(#[trigger] text[i]),
        forall|k: int| 0 <= k < words(text).len() ==> #[trigger] words(text)[k].len() > 0,
        forall|k: int, j: int|
            0 <= k < words(text).len() && 0 <= j < words(text)[k].len() ==> !is_white_space(
                #[trigger] words(text)[k][j],
            ),
    decreases text.len(),
{
    let rest = trim_start(text);
    lemma_trim_start_suffix(text);
    lemma_trim_start_shape(text);
    let m = text.len() - rest.len();
    if rest.len() > 0 {
        let k = first_white_space(rest);
        lemma_first_white_space_shape(rest);
        lemma_before_first_white_space(rest);
        let tail = rest.skip(k as int);
        lemma_words_shape(tail);
        let ws = words(text);
        assert(ws == seq![rest.take(k as int)] + words(tail));
        assert(rest[0] == text[m]);
        assert forall|a: int| 0 <= a < ws.len() implies #[trigger] ws[a].len() > 0 by {
            if a > 0 {
                assert(ws[a] == words(tail)[a - 1]);
            }
        }
        assert forall|a: int, j: int| 0 <= a < ws.len() && 0 <= j < ws[a].len() implies !is_white_space(
            #[trigger] ws[a][j],
        ) by {
            if a == 0 {
                assert(ws[0][j] == rest[j]);
            } else {
                assert(ws[a] == words(tail)[a - 1]);
            }
        }
    } else {
        assert forall|i: int| 0 <= i < text.len() implies is_white_space(#[trigger] text[i]) by {}
    }
}

proof fn lemma_joined_shape(ws: Seq<Seq<char>>)
    requires
        ws.len() > 0,
        forall|k: int| 0 <= k < ws.len() ==> #[trigger] ws[k].len() > 0,
        forall|k: int, j: int|
            0 <= k < ws.len() && 0 <= j < ws[k].len() ==> !is_white_space(#[trigger] ws[k][j]),
    ensures
        single_spaced(joined(ws)),
    decreases ws.len(),
{
    if ws.len() == 1 {
        assert(joined(ws) == ws[0]);
        assert forall|i: int| 0 <= i < ws[0].len() implies !is_white_space(#[trigger] ws[0][i]) by {}
    } else {
        let front = ws.drop_last();
        assert forall|k: int| 0 <= k < front.len() implies #[trigger] front[k].len() > 0 by {
            assert(front[k] == ws[k]);
        }
        assert forall|k: int, j: int| 0 <= k < front.len() && 0 <= j < front[k].len() implies !is_white_space(
            #[trigger] front[k][j],
        ) by {
            assert(front[k] == ws[k]);
        }
        lemma_joined_shape(front);
        let head = joined(front);
        let w = ws.last();
        let name = joined(ws);
        assert(name == head + seq![' '] + w);
        assert(ws[ws.len() - 1] == w);
        assert(!is_white_space(w[0]));
        assert(!is_white_space(head[head.len() - 1]));
        assert forall|i: int| 0 <= i < name.len() && is_white_space(#[trigger] name[i]) implies {
            &&& name[i] == ' '
            &&& 0 < i < name.len() - 1
            &&& !is_white_space(name[i - 1])
            &&& !is_white_space(name[i + 1])
        } by {
            if i < head.len() {
                assert(name[i] == head[i]);
                assert(name[i - 1] == head[i - 1]);
                assert(name[i + 1] == head[i + 1]);
            } else if i == head.len() {
                assert(name[i - 1] == head[head.len() - 1]);
                assert(name[i + 1] == w[0]);
            } else {
                assert(name[i] == w[i - head.len() - 1]);
                assert(ws[ws.len() - 1][i - head.len() - 1] == w[i - head.len() - 1]);
            }
        }
    }
}

/// A name as the report shows it is there exactly when the raw name has a character that
/// isn't white space, and then it is single spaced: its runs of white space have become
/// single spaces, and its ends are trimmed.
pub proof fn lemma_cpu_name_shape(raw: Seq<char>)
    ensures
        cpu_name_text(raw) is None <==> forall|i: int|
            0 <= i < raw.len() ==> is_white_space(#[trigger] raw[i]),
        cpu_name_text(raw) matches Some(name) ==> single_spaced(name),
{
    lemma_words_shape(raw);
    let ws = words(raw);
    if ws.len() > 0 {
        lemma_joined_shape(ws);
    } else {
        assert(joined(ws).len() == 0);
    }
}

/// The model is taken from the first line that names one; it is none when no line does.
pub proof fn lemma_first_model_line(lines: Seq<Seq<char>>)
    ensures
        first_model_value(lines) is None <==> forall|k: int|
            0 <= k < lines.len() ==> model_value(#[trigger] lines[k]) is None,
        first_model_value(lines) matches Some(value) ==> exists|k: int|
            0 <= k < lines.len() && model_value(#[trigger] lines[k]) == Some(value) && forall|
                j: int,
            | 0 <= j < k ==> model_value(#[trigger] lines[j]) is None,
    decreases lines.len(),
{
    if lines.len() > 0 {
        let rest = lines.drop_first();
        lemma_first_model_line(rest);
        match model_value(lines[0]) {
            Some(value) => {
                assert(model_value(lines[0]) == Some(value));
            },
            None => {
                assert forall|k: int| 0 < k < lines.len() implies #[trigger] lines[k] == rest[k
                    - 1] by {}
                if let Some(value) = first_model_value(rest) {
                    let k = choose|k: int|
                        0 <= k < rest.len() && model_value(#[trigger] rest[k]) == Some(value)
                            && forall|j: int| 0 <= j < k ==> model_value(#[trigger] rest[j]) is None;
                    assert(lines[k + 1] == rest[k]);
                    assert forall|j: int| 0 <= j < k + 1 implies model_value(
                        #[trigger] lines[j],
                    ) is None by {
                        if j > 0 {
                            assert(lines[j] == rest[j - 1]);
                        }
                    }
                } else {
                    assert forall|k: int| 0 <= k < lines.len() implies model_value(
                        #[trigger] lines[k],
                    ) is None by {
                        if k > 0 {
                            assert(lines[k] == rest[k - 1]);
                        }
                    }
                }
            },
        }
    }
}

/// The model from `/proc/cpuinfo` is single spaced, as any name the report shows.
pub proof fn lemma_cpuinfo_model_shape(cpuinfo: Seq<char>)
    ensures
        cpuinfo_model(cpuinfo) matches Some(name) ==> single_spaced(name),
{
    if let Some(value) = first_model_value(text_lines(cpuinfo)) {
        lemma_cpu_name_shape(value);
    }
}

} // verus!
