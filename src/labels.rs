use vstd::prelude::*;

verus! {

/// The labels held by a list of tag strings.
pub open spec fn label_set(v: Seq<String>) -> Set<Seq<char>> {
    Set::new(|s: Seq<char>| exists|i: int| 0 <= i < v.len() && v[i]@ == s)
}

/// The labels of an optional tag list; an absent list holds none.
pub open spec fn tags_view(o: Option<Vec<String>>) -> Set<Seq<char>> {
    match o {
        Some(v) => label_set(v@),
        None => Set::empty(),
    }
}

/// No label occurs twice in the list.
pub open spec fn labels_distinct(v: Seq<String>) -> bool {
    forall|i: int, j: int| 0 <= i < v.len() && 0 <= j < v.len() && i != j ==> v[i]@ != v[j]@
}

/// A tag list, when present, is non-empty and holds each label once.
pub open spec fn tag_list_ok(o: Option<Vec<String>>) -> bool {
    match o {
        Some(v) => v@.len() > 0 && labels_distinct(v@),
        None => true,
    }
}

proof fn lemma_label_set_push(v: Seq<String>, x: String)
    ensures
        label_set(v.push(x)) == label_set(v).insert(x@),
{
    let w = v.push(x);
    assert forall|s: Seq<char>| label_set(w).contains(s) implies label_set(v).insert(x@).contains(s) by {
        let i = choose|i: int| 0 <= i < w.len() && w[i]@ == s;
        if i < v.len() {
            assert(v[i]@ == s);
        }
    }
    assert forall|s: Seq<char>| label_set(v).insert(x@).contains(s) implies label_set(w).contains(s) by {
        if s == x@ {
            assert(w[v.len() as int]@ == s);
        } else {
            let i = choose|i: int| 0 <= i < v.len() && v[i]@ == s;
            assert(w[i]@ == s);
        }
    }
    assert(label_set(w) =~= label_set(v).insert(x@));
}

/// Whether the list holds the label `t`.
pub fn list_has(v: &Vec<String>, t: &String) -> (r: bool)
    ensures
        r == label_set(v@).contains(t@),
{
    let mut i: usize = 0;
    while i < v.len()
        invariant
            i <= v.len(),
            forall|j: int| 0 <= j < i ==> v@[j]@ != t@,
        decreases v.len() - i,
    {
        if v[i].eq(t) {
            assert(label_set(v@).contains(t@));
            return true;
        }
        i += 1;
    }
    false
}

/// Adds the label `t` to the list unless it is already there.
pub fn insert_label(v: &mut Vec<String>, t: String)
    ensures
        label_set(final(v)@) == label_set(old(v)@).insert(t@),
        final(v)@.len() > 0,
        final(v)@.len() >= old(v)@.len(),
        labels_distinct(old(v)@) ==> labels_distinct(final(v)@),
{
    if list_has(v, &t) {
        assert(label_set(v@).insert(t@) =~= label_set(v@));
    } else {
        proof {
            lemma_label_set_push(v@, t);
        }
        let ghost before = v@;
        v.push(t);
        assert forall|i: int| 0 <= i < before.len() implies before[i]@ != v@[before.len() as int]@ by {
            if before[i]@ == v@[before.len() as int]@ {
                assert(label_set(before).contains(t@));
            }
        }
    }
}

/// Adds every label of `src` to `dst`.
pub fn merge_labels(dst: &mut Vec<String>, src: &Vec<String>)
    ensures
        label_set(final(dst)@) == label_set(old(dst)@).union(label_set(src@)),
        final(dst)@.len() >= old(dst)@.len(),
        src@.len() > 0 ==> final(dst)@.len() > 0,
        labels_distinct(old(dst)@) ==> labels_distinct(final(dst)@),
{
    let ghost start = dst@;
    let mut i: usize = 0;
    while i < src.len()
        invariant
            i <= src.len(),
            label_set(dst@) == label_set(start).union(label_set(src@.subrange(0, i as int))),
            dst@.len() >= start.len(),
            i > 0 ==> dst@.len() > 0,
            labels_distinct(start) ==> labels_distinct(dst@),
        decreases src.len() - i,
    {
        let ghost before = dst@;
        let t = src[i].clone();
        insert_label(dst, t);
        proof {
            let s = src@.subrange(0, i as int);
            assert(src@.subrange(0, i as int + 1) =~= s.push(src@[i as int]));
            lemma_label_set_push(s, src@[i as int]);
            assert(label_set(dst@) =~= label_set(start).union(label_set(src@.subrange(0, i as int + 1))));
        }
        i += 1;
    }
    assert(src@.subrange(0, src@.len() as int) =~= src@);
}

} // verus!
