//! Tags: the errors of tag requests, and the type lists that the tag
//! document gives each tag.

use vstd::prelude::*;

verus! {

/// A tag request that cannot be served.
#[derive(Clone, Copy, PartialEq, Eq, Structural, Debug)]
pub enum TagError {
    NotFound,
    NothingToDelete,
    BadType,
}

impl TagError {
    /// The message sent back to the client.
    pub fn message(&self) -> (res: &'static str)
        ensures
            res@ == (match *self {
                TagError::NotFound => "Tag not found"@,
                TagError::NothingToDelete => "无删除的标签"@,
                TagError::BadType => "类型ID错误"@,
            }),
    {
        match self {
            TagError::NotFound => "Tag not found",
            TagError::NothingToDelete => "无删除的标签",
            TagError::BadType => "类型ID错误",
        }
    }
}

/// Checks that the types a tag is linked to all exist.
pub fn check_tag_types(type_ids: &Vec<i64>, existing: &Vec<i64>) -> (res: Result<(), TagError>)
    ensures
        res is Ok <==> crate::item::all_known(type_ids@, existing@),
        res is Err ==> res == Err::<(), TagError>(TagError::BadType),
{
    match crate::item::check_types_exist(type_ids, existing) {
        Ok(()) => Ok(()),
        Err(_) => Err(TagError::BadType),
    }
}

/// Creating a tag by name only happens when no tag has that name.
pub fn create_by_name_needed(existing: u64) -> (res: bool)
    ensures
        res == (existing == 0),
{
    existing == 0
}

/// Renaming a tag moves its type links only when the name changes.
pub fn links_follow_rename(old_name: &str, new_name: &str) -> (res: bool)
    ensures
        res == (old_name@ != new_name@),
{
    !crate::text::text_eq(old_name, new_name)
}

/// The type links as plain values.
pub open spec fn links_view(links: Seq<(String, i64)>) -> Seq<(Seq<char>, i64)> {
    links.map_values(|l: (String, i64)| (l.0@, l.1))
}

/// The types of the first `n` links with this tag name, in order.
pub open spec fn types_of_tag(links: Seq<(Seq<char>, i64)>, name: Seq<char>, n: int) -> Seq<i64>
    decreases n,
{
    if n <= 0 {
        Seq::empty()
    } else if links[n - 1].0 == name {
        types_of_tag(links, name, n - 1).push(links[n - 1].1)
    } else {
        types_of_tag(links, name, n - 1)
    }
}

proof fn lemma_types_of_tag_filter(links: Seq<(Seq<char>, i64)>, name: Seq<char>, n: int)
    requires
        0 <= n <= links.len(),
    ensures
        types_of_tag(links, name, n) == links.take(n).filter(|l: (Seq<char>, i64)| l.0 == name).map_values(
            |l: (Seq<char>, i64)| l.1,
        ),
    decreases n,
{
    let pred = |l: (Seq<char>, i64)| l.0 == name;
    let f = |l: (Seq<char>, i64)| l.1;
    if n == 0 {
        reveal(Seq::filter);
        assert(links.take(0).filter(pred).map_values(f) =~= Seq::<i64>::empty());
    } else {
        lemma_types_of_tag_filter(links, name, n - 1);
        assert(links.take(n) =~= links.take(n - 1).push(links[n - 1]));
        links.take(n - 1).lemma_filter_push(links[n - 1], pred);
        let m = links.take(n - 1).filter(pred);
        assert(m.push(links[n - 1]).map_values(f) =~= m.map_values(f).push(links[n - 1].1));
    }
}

/// The types of a tag name are the type ends of the links with that name,
/// in link order, repeats kept.
pub proof fn tag_types_are_its_links(links: Seq<(Seq<char>, i64)>, name: Seq<char>)
    ensures
        types_of_tag(links, name, links.len() as int) == links.filter(|l: (Seq<char>, i64)| l.0 == name).map_values(
            |l: (Seq<char>, i64)| l.1,
        ),
{
    lemma_types_of_tag_filter(links, name, links.len() as int);
    assert(links.take(links.len() as int) =~= links);
}

/// The tags' names as plain text.
pub open spec fn tag_names(tags: Seq<String>) -> Seq<Seq<char>> {
    tags.map_values(|t: String| t@)
}

/// The type list the document gives tag `k`: its links' types, unless an
/// earlier tag has the same name (the links go to the first one only).
pub open spec fn doc_types(tags: Seq<Seq<char>>, links: Seq<(Seq<char>, i64)>, k: int) -> Seq<i64> {
    if tags.take(k).contains(tags[k]) {
        Seq::empty()
    } else {
        types_of_tag(links, tags[k], links.len() as int)
    }
}

fn types_for(links: &Vec<(String, i64)>, name: &str) -> (res: Vec<i64>)
    ensures
        res@ == types_of_tag(links_view(links@), name@, links@.len() as int),
{
    let ghost lv = links_view(links@);
    let mut res: Vec<i64> = Vec::new();
    let mut i: usize = 0;
    while i < links.len()
        invariant
            i <= links@.len(),
            lv == links_view(links@),
            res@ == types_of_tag(lv, name@, i as int),
        decreases links@.len() - i,
    {
        if crate::text::text_eq(links[i].0.as_str(), name) {
            res.push(links[i].1);
        }
        i += 1;
    }
    res
}

/// The type list of each tag of the document, in order.
pub fn tag_doc_types(tags: &Vec<String>, links: &Vec<(String, i64)>) -> (res: Vec<Vec<i64>>)
    ensures
        res@.len() == tags@.len(),
        forall|k: int| 0 <= k < tags@.len() ==> (#[trigger] res@[k])@ == doc_types(tag_names(tags@), links_view(links@), k),
{
    let ghost names = tag_names(tags@);
    let mut res: Vec<Vec<i64>> = Vec::new();
    let mut k: usize = 0;
    while k < tags.len()
        invariant
            k <= tags@.len(),
            names == tag_names(tags@),
            res@.len() == k,
            forall|t: int| 0 <= t < k ==> (#[trigger] res@[t])@ == doc_types(names, links_view(links@), t),
        decreases tags@.len() - k,
    {
        let name = tags[k].as_str();
        let mut seen = false;
        let mut j: usize = 0;
        while j < k
            invariant
                j <= k < tags@.len(),
                names == tag_names(tags@),
                name@ == tags@[k as int]@,
                seen <==> names.take(j as int).contains(names[k as int]),
            decreases k - j,
        {
            let ghost before = seen;
            if crate::text::text_eq(tags[j].as_str(), name) {
                seen = true;
            }
            proof {
                let p = names.take(j as int);
                let q = names.take(j + 1);
                let x = names[k as int];
                assert(q == p.push(names[j as int]));
                assert(names[j as int] == tags@[j as int]@);
                assert(names[k as int] == tags@[k as int]@);
                assert(x == name@);
                if q.contains(x) && !p.contains(x) {
                    let t = choose|t: int| 0 <= t < q.len() && q[t] == x;
                    assert(t == j);
                }
                if p.contains(x) {
                    let t = choose|t: int| 0 <= t < p.len() && p[t] == x;
                    assert(q[t] == x);
                }
                if names[j as int] == x {
                    assert(q[j as int] == x);
                }
            }
            j += 1;
        }
        assert(names.take(k as int) == names.take(k as int).take(j as int));
        if seen {
            res.push(Vec::new());
            assert(res@[k as int]@ =~= Seq::<i64>::empty());
        } else {
            res.push(types_for(links, name));
        }
        k += 1;
    }
    res
}

} // verus!
