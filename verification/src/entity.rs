//! The entity abstraction: anything that can describe itself as flat
//! key-value context, plus the explicit flattening of tree-shaped records.

use vstd::prelude::*;
use crate::context_builder::format_entity_context;
use crate::types::EntityRelationship;
use crate::utils::truncate_text;

verus! {

/// A record the retrieval pipeline can build context from.  Implement this
/// for the data types whose content should become searchable.
pub trait RagEntity: Sized {
    /// The entity type identifier, such as `User`.
    fn entity_type() -> &'static str;

    /// The unique identifier of this entity instance.
    fn entity_id(&self) -> String;

    /// A flat key-value rendering of the entity.  Use dot notation for
    /// nested fields, as in `profile.age`.
    fn to_context_map(&self) -> Vec<(String, String)>;

    /// Relationships from this entity to others.
    fn relationships(&self) -> Vec<EntityRelationship>;

    /// A human-readable text rendering: header lines naming the entity, then
    /// one `key: value` line per context-map entry.
    fn to_text(&self) -> String {
        let map = self.to_context_map();
        let id = self.entity_id();
        format_entity_context(Self::entity_type(), id.as_str(), &map, true)
    }

    /// The first `max_length` code points of the text rendering, with an
    /// ellipsis when anything was cut.
    fn to_summary(&self, max_length: usize) -> String {
        let text = self.to_text();
        truncate_text(text.as_str(), max_length)
    }
}

/// A tree-shaped record whose scalar leaves and list items have already been
/// rendered to text: the shape `flatten_json_to_context` walks.  The host
/// layer converts its parsed JSON values into this shape.
#[derive(Debug)]
pub enum ContextValue {
    /// A rendered scalar: string content, a number's digits, or empty for a
    /// null.
    Leaf(String),
    /// A list of rendered items.
    List(Vec<String>),
    /// Named fields, in the order they should be walked.
    Object(Vec<(String, ContextValue)>),
}

/// The tail of a `, `-joined list from item `i` on: a separator then the
/// item, repeated.
pub open spec fn spec_list_rest(items: Seq<String>, i: int) -> Seq<char>
    decreases items.len() - i,
{
    if i < 0 || i >= items.len() {
        Seq::empty()
    } else {
        ", "@ + items[i]@ + spec_list_rest(items, i + 1)
    }
}

/// List items joined by `, `.
pub open spec fn spec_list_text(items: Seq<String>) -> Seq<char> {
    if items.len() == 0 {
        Seq::empty()
    } else {
        items[0]@ + spec_list_rest(items, 1)
    }
}

/// The field path of a nested key under `prefix`.
pub open spec fn spec_sub_prefix(prefix: Seq<char>, key: Seq<char>) -> Seq<char> {
    if prefix.len() == 0 {
        key
    } else {
        prefix + "."@ + key
    }
}

/// The flat `(path, text)` pairs of a context value: a leaf or list becomes
/// one pair under its path, an object contributes its fields in order under
/// dotted paths.
pub open spec fn spec_flatten(value: ContextValue, prefix: Seq<char>) -> Seq<(Seq<char>, Seq<char>)>
    decreases value,
{
    match value {
        ContextValue::Leaf(s) => seq![(prefix, s@)],
        ContextValue::List(items) => seq![(prefix, spec_list_text(items@))],
        ContextValue::Object(fields) => spec_flatten_fields(fields@, prefix),
    }
}

/// The flat pairs of an object's fields, first field first.
pub open spec fn spec_flatten_fields(
    fields: Seq<(String, ContextValue)>,
    prefix: Seq<char>,
) -> Seq<(Seq<char>, Seq<char>)>
    decreases fields,
{
    if fields.len() == 0 {
        Seq::empty()
    } else {
        spec_flatten(fields[0].1, spec_sub_prefix(prefix, fields[0].0@)) + spec_flatten_fields(
            fields.drop_first(),
            prefix,
        )
    }
}

/// Joins rendered list items with `, `.
fn list_text(items: &Vec<String>) -> (r: String)
    ensures
        r@ == spec_list_text(items@),
{
    let n = items.len();
    let mut out = String::new();
    let mut i: usize = 0;
    while i < n
        invariant
            0 <= i <= n,
            n == items@.len(),
            i == 0 ==> out@ == Seq::<char>::empty(),
            i > 0 ==> spec_list_text(items@) =~= out@ + spec_list_rest(items@, i as int),
        decreases n - i,
    {
        if i > 0 {
            out.append(", ");
            proof {
                reveal_strlit(", ");
            }
        }
        out.append(items[i].as_str());
        i = i + 1;
    }
    out
}

/// Flattens a tree-shaped record into flat `(path, text)` pairs, using dot
/// notation for nested fields.
pub fn flatten_json_to_context(value: &ContextValue, prefix: &str) -> (r: Vec<(String, String)>)
    ensures
        r@.len() == spec_flatten(*value, prefix@).len(),
        forall|i: int| 0 <= i < r@.len() ==> (#[trigger] r@[i]).0@ == spec_flatten(
            *value,
            prefix@,
        )[i].0 && r@[i].1@ == spec_flatten(*value, prefix@)[i].1,
    decreases value,
{
    match value {
        ContextValue::Leaf(s) => {
            let mut r: Vec<(String, String)> = Vec::new();
            r.push((prefix.to_owned(), s.clone()));
            r
        },
        ContextValue::List(items) => {
            let mut r: Vec<(String, String)> = Vec::new();
            r.push((prefix.to_owned(), list_text(items)));
            r
        },
        ContextValue::Object(fields) => {
            let ghost full = spec_flatten_fields(fields@, prefix@);
            let n = fields.len();
            let mut r: Vec<(String, String)> = Vec::new();
            let mut i: usize = 0;
            proof {
                assert(fields@.skip(0) =~= fields@);
                assert(r@.map_values(|p: (String, String)| (p.0@, p.1@))
                    =~= Seq::<(Seq<char>, Seq<char>)>::empty());
            }
            while i < n
                invariant
                    0 <= i <= n,
                    n == fields@.len(),
                    *value is Object,
                    *fields == (*value)->Object_0,
                    full == spec_flatten_fields(fields@, prefix@),
                    full =~= r@.map_values(|p: (String, String)| (p.0@, p.1@))
                        + spec_flatten_fields(fields@.skip(i as int), prefix@),
                decreases n - i,
            {
                let key = &fields[i].0;
                let sub: String = if prefix.unicode_len() == 0 {
                    key.clone()
                } else {
                    let mut p: String = prefix.to_owned();
                    p.append(".");
                    p.append(key.as_str());
                    p
                };
                proof {
                    reveal_strlit(".");
                    assert(sub@ == spec_sub_prefix(prefix@, key@));
                }
                proof {
                    assert(*value is Object);
                    assert(*fields == (*value)->Object_0);
                    assert(decreases_to!(*value => (*value)->Object_0));
                    assert(decreases_to!(*fields => fields@));
                    assert(decreases_to!(fields@ => fields@[i as int]));
                    assert(decreases_to!(fields@[i as int] => fields@[i as int].1));
                }
                let mut part = flatten_json_to_context(&fields[i].1, sub.as_str());
                let pl = part.len();
                let ghost partg = part@;
                proof {
                    assert(partg.len() == pl);
                }
                let mut j: usize = 0;
                let ghost r0 = r@;
                while part.len() > 0
                    invariant
                        0 <= j <= partg.len(),
                        partg.len() <= usize::MAX,
                        part@ =~= partg.skip(j as int),
                        r@ =~= r0 + partg.take(j as int),
                    decreases partg.len() - j,
                {
                    let p = part.remove(0);
                    proof {
                        assert(p == partg[j as int]);
                        assert(partg.take(j as int + 1) =~= partg.take(j as int).push(p));
                    }
                    r.push(p);
                    j = j + 1;
                }
                proof {
                    assert(r@ =~= r0 + partg);
                    assert(fields@.skip(i as int)[0] == fields@[i as int]);
                    assert(fields@.skip(i as int).drop_first() =~= fields@.skip(i as int + 1));
                    assert(spec_flatten_fields(fields@.skip(i as int), prefix@) == spec_flatten(
                        fields@[i as int].1,
                        spec_sub_prefix(prefix@, fields@[i as int].0@),
                    ) + spec_flatten_fields(fields@.skip(i as int + 1), prefix@));
                    assert(r@.map_values(|p: (String, String)| (p.0@, p.1@)) =~= r0.map_values(
                        |p: (String, String)| (p.0@, p.1@),
                    ) + partg.map_values(|p: (String, String)| (p.0@, p.1@)));
                    assert(partg.map_values(|p: (String, String)| (p.0@, p.1@)) =~= spec_flatten(
                        fields@[i as int].1,
                        spec_sub_prefix(prefix@, fields@[i as int].0@),
                    ));
                }
                i = i + 1;
            }
            proof {
                assert(spec_flatten_fields(fields@.skip(n as int), prefix@)
                    =~= Seq::<(Seq<char>, Seq<char>)>::empty());
                assert(full =~= r@.map_values(|p: (String, String)| (p.0@, p.1@)));
            }
            r
        },
    }
}

} // verus!
