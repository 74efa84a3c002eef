use vstd::prelude::*;

verus! {

/// A JSON document as the manifest logic reads and edits it. An object is
/// a list of members; a key is looked up by its first occurrence, which is
/// the member a JSON map holds when keys are unique.
#[derive(Debug)]
pub enum JsonValue {
    Null,
    Bool(bool),
    /// A number, kept as the text it is written with.
    Number(String),
    Str(String),
    Array(Vec<JsonValue>),
    Object(Vec<JsonMember>),
}

/// One `"key": value` member of a JSON object.
#[derive(Debug)]
pub struct JsonMember {
    pub key: String,
    pub value: JsonValue,
}

/// The position of the first member of `ms` at or after `i` whose key is `key`.
pub open spec fn member_index_from(ms: Seq<JsonMember>, key: Seq<char>, i: int) -> Option<int>
    decreases ms.len() - i,
{
    if i < 0 || i >= ms.len() {
        None
    } else if ms[i].key@ == key {
        Some(i)
    } else {
        member_index_from(ms, key, i + 1)
    }
}

/// The position of the first member of `ms` whose key is `key`.
pub open spec fn member_index(ms: Seq<JsonMember>, key: Seq<char>) -> Option<int> {
    member_index_from(ms, key, 0)
}

/// The value bound to `key` among the members `ms`.
pub open spec fn member_value(ms: Seq<JsonMember>, key: Seq<char>) -> Option<JsonValue> {
    match member_index(ms, key) {
        Some(i) => Some(ms[i].value),
        None => None,
    }
}

/// `value.get(key)`: the member `key` of an object, nothing for any other value.
pub open spec fn json_field(value: JsonValue, key: Seq<char>) -> Option<JsonValue> {
    match value {
        JsonValue::Object(ms) => member_value(ms@, key),
        _ => None,
    }
}

/// No two of the members `ms` have the same key.
pub open spec fn keys_distinct(ms: Seq<JsonMember>) -> bool {
    forall|i: int, j: int|
        0 <= i < j < ms.len() ==> (#[trigger] ms[i]).key@ != (#[trigger] ms[j]).key@
}

/// Every object in `value`, at any depth, has distinct keys, as in a JSON
/// document parsed into a map.
pub open spec fn json_well_formed(value: JsonValue) -> bool
    decreases value,
{
    match value {
        JsonValue::Array(items) => forall|i: int|
            0 <= i < items.len() ==> json_well_formed(#[trigger] items@[i]),
        JsonValue::Object(ms) => keys_distinct(ms@) && forall|i: int|
            0 <= i < ms.len() ==> json_well_formed((#[trigger] ms@[i]).value),
        _ => true,
    }
}

/// `value.as_str()`.
pub open spec fn json_text(value: JsonValue) -> Option<Seq<char>> {
    match value {
        JsonValue::Str(s) => Some(s@),
        _ => None,
    }
}

proof fn lemma_member_index_from(ms: Seq<JsonMember>, key: Seq<char>, i: int)
    requires
        0 <= i,
    ensures
        match member_index_from(ms, key, i) {
            Some(k) => i <= k < ms.len() && ms[k].key@ == key && forall|j: int|
                i <= j < k ==> (#[trigger] ms[j]).key@ != key,
            None => forall|j: int| i <= j < ms.len() ==> (#[trigger] ms[j]).key@ != key,
        },
    decreases ms.len() - i,
{
    if i < ms.len() && ms[i].key@ != key {
        lemma_member_index_from(ms, key, i + 1);
    }
}

/// `member_index` is the first position whose key matches.
pub proof fn lemma_member_index(ms: Seq<JsonMember>, key: Seq<char>)
    ensures
        match member_index(ms, key) {
            Some(k) => 0 <= k < ms.len() && ms[k].key@ == key && forall|j: int|
                0 <= j < k ==> (#[trigger] ms[j]).key@ != key,
            None => forall|j: int| 0 <= j < ms.len() ==> (#[trigger] ms[j]).key@ != key,
        },
{
    lemma_member_index_from(ms, key, 0);
}

/// The first position whose key matches is unique: any position with the
/// key and no earlier one is it.
pub proof fn lemma_member_index_at(ms: Seq<JsonMember>, key: Seq<char>, k: int)
    requires
        0 <= k < ms.len(),
        ms[k].key@ == key,
        forall|j: int| 0 <= j < k ==> (#[trigger] ms[j]).key@ != key,
    ensures
        member_index(ms, key) == Some(k),
{
    lemma_member_index(ms, key);
}

/// Where `key` is in `ms`, if it is.
pub fn find_member(ms: &Vec<JsonMember>, key: &String) -> (r: Option<usize>)
    ensures
        match r {
            Some(i) => member_index(ms@, key@) == Some(i as int) && i < ms@.len(),
            None => member_index(ms@, key@) is None,
        },
{
    proof {
        lemma_member_index(ms@, key@);
    }
    let mut i: usize = 0;
    while i < ms.len()
        invariant
            i <= ms@.len(),
            member_index(ms@, key@) == member_index_from(ms@, key@, i as int),
        decreases ms@.len() - i,
    {
        if ms[i].key == *key {
            return Some(i);
        }
        i = i + 1;
    }
    None
}

/// `value.get(key)`.
pub fn field<'a>(value: &'a JsonValue, key: &String) -> (r: Option<&'a JsonValue>)
    ensures
        match r {
            Some(v) => json_field(*value, key@) == Some(*v),
            None => json_field(*value, key@) is None,
        },
{
    match value {
        JsonValue::Object(ms) => match find_member(ms, key) {
            Some(i) => Some(&ms[i].value),
            None => None,
        },
        _ => None,
    }
}

/// `new` is `old` with `key` bound to `value`: the first member with that
/// key gets the value, or, if there is none, a member is added at the end.
pub open spec fn members_set(
    old: Seq<JsonMember>,
    new: Seq<JsonMember>,
    key: Seq<char>,
    value: JsonValue,
) -> bool {
    match member_index(old, key) {
        Some(i) => {
            &&& new.len() == old.len()
            &&& new[i].key@ == key
            &&& new[i].value == value
            &&& forall|j: int| 0 <= j < old.len() && j != i ==> new[j] == old[j]
        },
        None => {
            &&& new.len() == old.len() + 1
            &&& new[old.len() as int].key@ == key
            &&& new[old.len() as int].value == value
            &&& forall|j: int| 0 <= j < old.len() ==> new[j] == old[j]
        },
    }
}

/// After binding `key`, looking `key` up gives the new value and looking up
/// any other key gives what it gave before.
pub proof fn lemma_members_set(
    old: Seq<JsonMember>,
    new: Seq<JsonMember>,
    key: Seq<char>,
    value: JsonValue,
    other: Seq<char>,
)
    requires
        members_set(old, new, key, value),
    ensures
        member_value(new, key) == Some(value),
        other != key ==> member_value(new, other) == member_value(old, other),
{
    lemma_member_index(old, key);
    lemma_member_index(old, other);
    lemma_member_index(new, other);
    match member_index(old, key) {
        Some(i) => {
            lemma_member_index_at(new, key, i);
            if other != key {
                match member_index(old, other) {
                    Some(k) => {
                        assert(k != i);
                        lemma_member_index_at(new, other, k);
                    },
                    None => {
                        assert forall|j: int| 0 <= j < new.len() implies (#[trigger] new[j]).key@
                            != other by {
                            if j != i {
                                assert(new[j] == old[j]);
                            }
                        }
                        lemma_member_index(new, other);
                    },
                }
            }
        },
        None => {
            lemma_member_index_at(new, key, old.len() as int);
            if other != key {
                match member_index(old, other) {
                    Some(k) => {
                        lemma_member_index_at(new, other, k);
                    },
                    None => {
                        assert forall|j: int| 0 <= j < new.len() implies (#[trigger] new[j]).key@
                            != other by {
                            if j < old.len() {
                                assert(new[j] == old[j]);
                            }
                        }
                        lemma_member_index(new, other);
                    },
                }
            }
        },
    }
}

/// In members with distinct keys, looking up the key of a member finds
/// that member's value.
pub proof fn lemma_member_found(ms: Seq<JsonMember>, k: int)
    requires
        keys_distinct(ms),
        0 <= k < ms.len(),
    ensures
        member_index(ms, ms[k].key@) == Some(k),
        member_value(ms, ms[k].key@) == Some(ms[k].value),
{
    assert forall|j: int| 0 <= j < k implies (#[trigger] ms[j]).key@ != ms[k].key@ by {}
    lemma_member_index_at(ms, ms[k].key@, k);
}

/// A member of a well-formed object is well-formed.
pub proof fn lemma_field_well_formed(value: JsonValue, key: Seq<char>)
    requires
        json_well_formed(value),
        json_field(value, key) is Some,
    ensures
        json_well_formed(json_field(value, key)->0),
{
    if let JsonValue::Object(ms) = value {
        lemma_member_index(ms@, key);
        let k = member_index(ms@, key)->0;
        assert(0 <= k < ms.len());
        assert(json_well_formed(ms@[k].value));
    }
}

/// Binding a key keeps the keys distinct and the values well-formed.
pub proof fn lemma_members_set_well_formed(
    old: Seq<JsonMember>,
    new: Seq<JsonMember>,
    key: Seq<char>,
    value: JsonValue,
)
    requires
        members_set(old, new, key, value),
        keys_distinct(old),
        forall|i: int| 0 <= i < old.len() ==> json_well_formed((#[trigger] old[i]).value),
        json_well_formed(value),
    ensures
        keys_distinct(new),
        forall|i: int| 0 <= i < new.len() ==> json_well_formed((#[trigger] new[i]).value),
{
    lemma_member_index(old, key);
    match member_index(old, key) {
        Some(k) => {
            assert forall|i: int, j: int| 0 <= i < j < new.len() implies (#[trigger] new[i]).key@
                != (#[trigger] new[j]).key@ by {
                assert(new[i].key@ == old[i].key@);
                assert(new[j].key@ == old[j].key@);
            }
            assert forall|i: int| 0 <= i < new.len() implies json_well_formed(
                (#[trigger] new[i]).value,
            ) by {
                if i != k {
                    assert(new[i] == old[i]);
                }
            }
        },
        None => {
            assert forall|i: int, j: int| 0 <= i < j < new.len() implies (#[trigger] new[i]).key@
                != (#[trigger] new[j]).key@ by {
                assert(new[i] == old[i]);
                if j < old.len() {
                    assert(new[j] == old[j]);
                }
            }
            assert forall|i: int| 0 <= i < new.len() implies json_well_formed(
                (#[trigger] new[i]).value,
            ) by {
                if i < old.len() {
                    assert(new[i] == old[i]);
                }
            }
        },
    }
}

/// Binds `key` to `value` among the members `ms` (`Map::insert`).
pub fn set_member(ms: &mut Vec<JsonMember>, key: &String, value: JsonValue)
    ensures
        members_set(old(ms)@, final(ms)@, key@, value),
{
    match find_member(ms, key) {
        Some(i) => {
            ms.set(i, JsonMember { key: key.clone(), value });
        },
        None => {
            ms.push(JsonMember { key: key.clone(), value });
        },
    }
}


/// The members of an object value, nothing for any other value.
pub open spec fn object_member_value(value: Option<JsonValue>, key: Seq<char>) -> Option<JsonValue> {
    match value {
        Some(JsonValue::Object(ms)) => member_value(ms@, key),
        _ => None,
    }
}

/// `json[section][name]`, the value a manifest gives dependency `name` in
/// the section `section`.
pub open spec fn dependency_value(json: JsonValue, section: Seq<char>, name: Seq<char>) -> Option<
    JsonValue,
> {
    object_member_value(json_field(json, section), name)
}

/// A section value `new` is `old` with member `name` set to the string
/// `spec`: a section that is there but not an object is left alone; a
/// missing section becomes an object; in an object, `name` gets the string
/// and every other member keeps its value.
pub open spec fn section_set(
    old: Option<JsonValue>,
    new: Option<JsonValue>,
    name: Seq<char>,
    spec: Seq<char>,
) -> bool {
    if old is Some && !(old->0 is Object) {
        new == old
    } else {
        &&& new matches Some(JsonValue::Object(ms))
        &&& object_member_value(new, name) matches Some(JsonValue::Str(s))
        &&& object_member_value(new, name).unwrap()->Str_0@ == spec
        &&& forall|n: Seq<char>|
            n != name ==> #[trigger] object_member_value(new, n) == object_member_value(old, n)
    }
}

/// `json[section]` made an empty object if the document has no such
/// member, then, if `json[section]` is an object, `name` set to the string
/// `spec` in it. Only an object or `null` can be indexed this way (`null`
/// turns into an empty object first); on any other document it panics.
pub fn set_dependency(json: &mut JsonValue, section: &String, name: &String, spec: &String)
    requires
        *old(json) is Object || *old(json) is Null,
    ensures
        *final(json) is Object,
        forall|t: Seq<char>|
            t != section@ ==> #[trigger] json_field(*final(json), t) == json_field(*old(json), t),
        section_set(json_field(*old(json), section@), json_field(*final(json), section@), name@, spec@),
        json_well_formed(*old(json)) ==> json_well_formed(*final(json)),
{
    if let JsonValue::Null = json {
        *json = JsonValue::Object(Vec::new());
    }
    match json {
        JsonValue::Object(members) => {
            let ghost before = members@;
            assert forall|t: Seq<char>| #[trigger] json_field(*old(json), t) == member_value(
                before,
                t,
            ) by {
                if *old(json) is Null {
                    assert(before =~= Seq::<JsonMember>::empty());
                    lemma_member_index(before, t);
                }
            }
            assert(json_well_formed(*old(json)) ==> keys_distinct(before) && forall|k: int|
                0 <= k < before.len() ==> json_well_formed((#[trigger] before[k]).value));
            match find_member(members, section) {
                Some(i) => {
                    proof {
                        lemma_member_index(before, section@);
                    }
                    let JsonMember { key, value } = members.remove(i);
                    assert(key@ == section@);
                    let ghost old_value = value;
                    let new_value = match value {
                        JsonValue::Object(mut deps) => {
                            let ghost deps_before = deps@;
                            let text = JsonValue::Str(spec.clone());
                            let ghost text_value = text;
                            set_member(&mut deps, name, text);
                            proof {
                                if json_well_formed(*old(json)) {
                                    lemma_member_index(before, section@);
                                    assert(json_well_formed(before[i as int].value));
                                    assert(keys_distinct(deps_before));
                                    lemma_members_set_well_formed(
                                        deps_before,
                                        deps@,
                                        name@,
                                        text_value,
                                    );
                                }
                                lemma_members_set(deps_before, deps@, name@, text_value, name@);
                                assert forall|n: Seq<char>| n != name@ implies member_value(deps@, n)
                                    == member_value(deps_before, n) by {
                                    lemma_members_set(deps_before, deps@, name@, text_value, n);
                                }
                            }
                            JsonValue::Object(deps)
                        },
                        other => other,
                    };
                    let ghost new_section = new_value;
                    members.insert(i, JsonMember { key, value: new_value });
                    proof {
                        assert forall|j: int| 0 <= j < before.len() && j != i implies members@[j]
                            == before[j] by {
                            if j < i {
                                assert(members@[j] == before.remove(i as int)[j]);
                            } else {
                                assert(members@[j] == before.remove(i as int)[j - 1]);
                            }
                        }
                        assert(members_set(before, members@, section@, new_section));
                        lemma_members_set(before, members@, section@, new_section, section@);
                        assert forall|t: Seq<char>| t != section@ implies member_value(members@, t)
                            == member_value(before, t) by {
                            lemma_members_set(before, members@, section@, new_section, t);
                        }
                        if json_well_formed(*old(json)) {
                            assert(json_well_formed(old_value));
                            lemma_members_set_well_formed(before, members@, section@, new_section);
                        }
                    }
                },
                None => {
                    let mut deps: Vec<JsonMember> = Vec::new();
                    deps.push(JsonMember { key: name.clone(), value: JsonValue::Str(spec.clone()) });
                    let ghost deps_view = deps@;
                    let section_value = JsonValue::Object(deps);
                    let ghost new_section = section_value;
                    members.push(JsonMember { key: section.clone(), value: section_value });
                    proof {
                        assert(members_set(before, members@, section@, new_section));
                        lemma_members_set(before, members@, section@, new_section, section@);
                        assert forall|t: Seq<char>| t != section@ implies member_value(members@, t)
                            == member_value(before, t) by {
                            lemma_members_set(before, members@, section@, new_section, t);
                        }
                        let empty = Seq::<JsonMember>::empty();
                        assert(members_set(empty, deps_view, name@, deps_view[0].value));
                        assert forall|n: Seq<char>| n != name@ implies member_value(deps_view, n)
                            == None::<JsonValue> by {
                            lemma_members_set(empty, deps_view, name@, deps_view[0].value, n);
                            lemma_member_index(empty, n);
                        }
                        lemma_members_set(empty, deps_view, name@, deps_view[0].value, name@);
                        if json_well_formed(*old(json)) {
                            assert(keys_distinct(deps_view));
                            assert(json_well_formed(deps_view[0].value));
                            assert(json_well_formed(new_section));
                            lemma_members_set_well_formed(before, members@, section@, new_section);
                        }
                    }
                },
            }
        },
        _ => {},
    }
}

} // verus!
