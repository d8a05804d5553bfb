//! What the server reads out of the container service's answers: the family
//! of a task definition, the task definitions of a family, and the task that
//! runs at a private address.

use vstd::prelude::*;

use crate::text::{chars_equal, lemma_split_append, lemma_split_single, split_chars, split_on, str_chars, string_from_chars};

verus! {

/// The family named in a task definition's ARN
/// (`arn:aws:ecs:region:account:task-definition/family:revision`): the text
/// after the first `/` of its sixth `:`-separated part.
pub open spec fn arn_family(arn: Seq<char>) -> Seq<char> {
    split_on(split_on(arn, ':')[5], '/')[1]
}

/// Whether `arn` has a sixth `:`-separated part with a `/` in it.
pub open spec fn arn_has_family(arn: Seq<char>) -> bool {
    split_on(arn, ':').len() > 5 && split_on(split_on(arn, ':')[5], '/').len() > 1
}

/// Whether `s` has no character `c`.
pub open spec fn free_of(s: Seq<char>, c: char) -> bool {
    forall|i: int| 0 <= i < s.len() ==> s[i] != c
}

/// A task definition's ARN from its parts: five `:`-separated fields, then
/// `kind/family`, then `:revision`.
pub open spec fn arn_text(
    p0: Seq<char>,
    p1: Seq<char>,
    p2: Seq<char>,
    p3: Seq<char>,
    p4: Seq<char>,
    kind: Seq<char>,
    family: Seq<char>,
    revision: Seq<char>,
) -> Seq<char> {
    p0 + seq![':'] + p1 + seq![':'] + p2 + seq![':'] + p3 + seq![':'] + p4 + seq![':'] + kind + seq!['/'] + family
        + seq![':'] + revision
}

/// The family read from an ARN is the whole name between the `/` of its
/// sixth field and the `:` of the revision, whatever characters other than
/// `:` and `/` it holds (`-` among them).
pub proof fn law_family_of_arn(
    p0: Seq<char>,
    p1: Seq<char>,
    p2: Seq<char>,
    p3: Seq<char>,
    p4: Seq<char>,
    kind: Seq<char>,
    family: Seq<char>,
    revision: Seq<char>,
)
    requires
        free_of(p0, ':'),
        free_of(p1, ':'),
        free_of(p2, ':'),
        free_of(p3, ':'),
        free_of(p4, ':'),
        free_of(kind, ':'),
        free_of(kind, '/'),
        free_of(family, ':'),
        free_of(family, '/'),
        free_of(revision, ':'),
    ensures
        arn_has_family(arn_text(p0, p1, p2, p3, p4, kind, family, revision)),
        arn_family(arn_text(p0, p1, p2, p3, p4, kind, family, revision)) == family,
{
    let middle = kind + seq!['/'] + family;
    assert(free_of(middle, ':')) by {
        assert forall|i: int| 0 <= i < middle.len() implies middle[i] != ':' by {
            if i < kind.len() {
                assert(middle[i] == kind[i]);
            } else if i > kind.len() {
                assert(middle[i] == family[i - kind.len() - 1]);
            }
        }
    }
    lemma_split_single(p0, ':');
    let x1 = p0 + seq![':'] + p1;
    lemma_split_append(p0, p1, ':');
    let x2 = x1 + seq![':'] + p2;
    lemma_split_append(x1, p2, ':');
    let x3 = x2 + seq![':'] + p3;
    lemma_split_append(x2, p3, ':');
    let x4 = x3 + seq![':'] + p4;
    lemma_split_append(x3, p4, ':');
    let x5 = x4 + seq![':'] + middle;
    lemma_split_append(x4, middle, ':');
    lemma_split_append(x5, revision, ':');
    assert(arn_text(p0, p1, p2, p3, p4, kind, family, revision) =~= x5 + seq![':'] + revision);
    let parts = split_on(arn_text(p0, p1, p2, p3, p4, kind, family, revision), ':');
    assert(parts =~= seq![p0, p1, p2, p3, p4, middle, revision]);
    lemma_split_single(kind, '/');
    lemma_split_append(kind, family, '/');
    assert(split_on(middle, '/') =~= seq![kind, family]);
}

/// The family of the task definition `arn`; `None` when the ARN has no
/// family part.
pub fn task_definition_family(arn: &str) -> (r: Option<String>)
    ensures
        match r {
            Some(f) => arn_has_family(arn@) && f@ == arn_family(arn@),
            None => !arn_has_family(arn@),
        },
{
    let chars = str_chars(arn);
    let parts = split_chars(&chars, ':');
    assert(parts@.len() == split_on(arn@, ':').len());
    if parts.len() <= 5 {
        return None;
    }
    assert(parts@[5]@ == split_on(arn@, ':')[5]);
    let pieces = split_chars(&parts[5], '/');
    assert(pieces@.len() == split_on(split_on(arn@, ':')[5], '/').len());
    if pieces.len() <= 1 {
        return None;
    }
    assert(pieces@[1]@ == arn_family(arn@));
    Some(string_from_chars(&pieces[1]))
}

/// The ARNs, in order, whose family is `task_name`; `None` when an ARN has
/// no family part.
pub fn matching_task_definitions(arns: &Vec<String>, task_name: &str) -> (r: Option<Vec<String>>)
    ensures
        match r {
            Some(found) => (forall|i: int| 0 <= i < arns.len() ==> arn_has_family(#[trigger] arns@[i]@))
                && found@.map_values(|a: String| a@) == arns@.map_values(|a: String| a@).filter(
                |a: Seq<char>| arn_family(a) == task_name@,
            ),
            None => exists|i: int| 0 <= i < arns.len() && !arn_has_family(#[trigger] arns@[i]@),
        },
{
    let wanted = str_chars(task_name);
    let mut r: Vec<String> = Vec::new();
    let ghost all = arns@.map_values(|a: String| a@);
    let ghost keep = |a: Seq<char>| arn_family(a) == task_name@;
    let mut i: usize = 0;
    while i < arns.len()
        invariant
            all == arns@.map_values(|a: String| a@),
            wanted@ == task_name@,
            forall|j: int| 0 <= j < i ==> arn_has_family(#[trigger] arns@[j]@),
            0 <= i <= arns.len(),
            keep == (|a: Seq<char>| arn_family(a) == task_name@),
            r@.map_values(|a: String| a@) =~= all.take(i as int).filter(keep),
        decreases arns.len() - i,
    {
        let family = match task_definition_family(arns[i].as_str()) {
            Some(f) => f,
            None => {
                return None;
            },
        };
        let family_chars = str_chars(family.as_str());
        let ghost before = r@.map_values(|a: String| a@);
        proof {
            reveal_with_fuel(Seq::<_>::filter, 1);
            assert(all.take(i + 1).drop_last() =~= all.take(i as int));
        }
        if chars_equal(&family_chars, &wanted) {
            r.push(arns[i].clone());
            assert(r@.map_values(|a: String| a@) =~= before.push(arns@[i as int]@));
        }
        i = i + 1;
    }
    assert(all.take(arns.len() as int) =~= all);
    Some(r)
}

/// Whether a detail of a task's attachment gives its private IPv4 address as `ip`.
pub open spec fn detail_names_ip(d: (Option<String>, Option<String>), ip: Seq<char>) -> bool {
    &&& d.0 matches Some(name) && name@ == "privateIPv4Address"@
    &&& d.1 matches Some(value) && value@ == ip
}

/// Whether any of a task's attachment details gives its private address as `ip`.
pub open spec fn task_has_ip(details: Seq<(Option<String>, Option<String>)>, ip: Seq<char>) -> bool {
    exists|j: int| 0 <= j < details.len() && detail_names_ip(#[trigger] details[j], ip)
}

fn detail_matches(d: &(Option<String>, Option<String>), key: &String, ip: &String) -> (r: bool)
    requires
        key@ == "privateIPv4Address"@,
    ensures
        r == detail_names_ip(*d, ip@),
{
    match (&d.0, &d.1) {
        (Some(name), Some(value)) => *name == *key && *value == *ip,
        _ => false,
    }
}

/// The first task, by index, one of whose attachment details (all of a task's
/// attachments' details, in order) gives its private IPv4 address as `ip`.
pub fn task_with_private_ip(tasks: &Vec<Vec<(Option<String>, Option<String>)>>, ip: &str) -> (r: Option<usize>)
    ensures
        match r {
            Some(i) => i < tasks.len() && task_has_ip(tasks@[i as int]@, ip@) && forall|k: int|
                0 <= k < i ==> !task_has_ip(#[trigger] tasks@[k]@, ip@),
            None => forall|k: int| 0 <= k < tasks.len() ==> !task_has_ip(#[trigger] tasks@[k]@, ip@),
        },
{
    let key = "privateIPv4Address".to_owned();
    let ip_text = ip.to_owned();
    let mut i: usize = 0;
    while i < tasks.len()
        invariant
            key@ == "privateIPv4Address"@,
            ip_text@ == ip@,
            0 <= i <= tasks.len(),
            forall|k: int| 0 <= k < i ==> !task_has_ip(#[trigger] tasks@[k]@, ip@),
        decreases tasks.len() - i,
    {
        let details = &tasks[i];
        assert(details@ == tasks@[i as int]@);
        let mut j: usize = 0;
        while j < details.len()
            invariant
                key@ == "privateIPv4Address"@,
                ip_text@ == ip@,
                0 <= j <= details.len(),
                i < tasks.len(),
                details@ == tasks@[i as int]@,
                forall|k: int| 0 <= k < i ==> !task_has_ip(#[trigger] tasks@[k]@, ip@),
                forall|m: int| 0 <= m < j ==> !detail_names_ip(#[trigger] details@[m], ip@),
            decreases details.len() - j,
        {
            if detail_matches(&details[j], &key, &ip_text) {
                assert(detail_names_ip(details@[j as int], ip@));
                assert(task_has_ip(tasks@[i as int]@, ip@));
                return Some(i);
            }
            j = j + 1;
        }
        i = i + 1;
    }
    None
}

} // verus!
