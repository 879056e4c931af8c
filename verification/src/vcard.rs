//! jCard contact-card model: parsing the jCard array form into typed
//! properties, over the library's own JSON value model.

use vstd::prelude::*;

verus! {

/// A JSON value as this library reads it.  A value that is neither a
/// string, an array nor an object is carried as its rendered text.
/// An object carries its members and its rendered text.
pub enum JsonVal {
    Str(String),
    Arr(Vec<JsonVal>),
    Obj(Vec<(String, JsonVal)>, String),
    Raw(String),
}

/// A single jCard property: `[name, parameters, type, value]`.  Of a
/// parameter's value only its text is kept: a non-string parameter
/// value reads as absent.
pub struct VCardProperty {
    pub name: String,
    pub parameters: Vec<(String, Option<String>)>,
    pub value_type: String,
    pub value: VCardValue,
}

/// A jCard property value.
pub enum VCardValue {
    Text(String),
    Structured(Vec<String>),
    Array(Vec<String>),
}

/// A contact card: an ordered list of properties.
pub struct VCard {
    pub properties: Vec<VCardProperty>,
}

/// A postal address, as the seven structured `adr` components.
pub struct VCardAddress {
    pub label: Option<String>,
    pub po_box: String,
    pub extended: String,
    pub street: String,
    pub locality: String,
    pub region: String,
    pub postal_code: String,
    pub country: String,
}

pub open spec fn str_items(items: Seq<JsonVal>) -> bool {
    forall|i: int| 0 <= i < items.len() ==> (#[trigger] items[i]) is Str
}

/// How a JSON value reads as a jCard property value: a string is
/// text; an array of strings is a structured value, any other array
/// is an empty array value; everything else reads as its text.
pub open spec fn from_json_rel(v: JsonVal, r: VCardValue) -> bool {
    match v {
        JsonVal::Str(s) => r == VCardValue::Text(s),
        JsonVal::Arr(items) => if str_items(items@) {
            r matches VCardValue::Structured(xs) && xs@.len() == items@.len() && forall|i: int|
                0 <= i < items@.len() ==> items@[i] == JsonVal::Str(#[trigger] xs@[i])
        } else {
            r matches VCardValue::Array(xs) && xs@.len() == 0
        },
        JsonVal::Obj(_, raw) => r == VCardValue::Text(raw),
        JsonVal::Raw(p) => r == VCardValue::Text(p),
    }
}

impl VCardValue {
    /// Reads a JSON value as a property value.
    pub fn from_json(val: &JsonVal) -> (r: VCardValue)
        ensures
            from_json_rel(*val, r),
    {
        match val {
            JsonVal::Str(s) => VCardValue::Text(s.clone()),
            JsonVal::Arr(items) => {
                let n = items.len();
                let mut xs: Vec<String> = Vec::new();
                let mut i: usize = 0;
                let mut all_str = true;
                while i < n
                    invariant
                        0 <= i <= n == items@.len(),
                        all_str ==> xs@.len() == i && forall|j: int|
                            0 <= j < i ==> items@[j] == JsonVal::Str(#[trigger] xs@[j]),
                        !all_str ==> exists|j: int|
                            0 <= j < i && !((#[trigger] items@[j]) is Str),
                    decreases n - i,
                {
                    match &items[i] {
                        JsonVal::Str(s) => {
                            if all_str {
                                xs.push(s.clone());
                            }
                        },
                        _ => {
                            all_str = false;
                        },
                    }
                    i = i + 1;
                }
                proof {
                    if all_str {
                        assert forall|j: int|
                            0 <= j < items@.len() implies (#[trigger] items@[j]) is Str by {
                            assert(items@[j] == JsonVal::Str(xs@[j]));
                        }
                    }
                }
                if all_str {
                    VCardValue::Structured(xs)
                } else {
                    VCardValue::Array(Vec::new())
                }
            },
            JsonVal::Obj(_, raw) => VCardValue::Text(raw.clone()),
            JsonVal::Raw(p) => VCardValue::Text(p.clone()),
        }
    }

    /// The text of a plain-text value.
    pub fn as_str(&self) -> (r: Option<&String>)
        ensures
            match r {
                Some(s) => *self matches VCardValue::Text(t) && *s == t,
                None => !(*self matches VCardValue::Text(_)),
            },
    {
        match self {
            VCardValue::Text(s) => Some(s),
            _ => None,
        }
    }
}

/// How a JSON value reads as a property: a four-or-more element array
/// whose first element is the name, second the parameter object,
/// third the type, fourth the value.
pub open spec fn prop_rel(v: JsonVal, r: Option<VCardProperty>) -> bool {
    match r {
        Some(p) => v matches JsonVal::Arr(items) && items@.len() >= 4 && (items@[0] matches
            JsonVal::Str(nm) && p.name == nm) && (items@[1] matches JsonVal::Obj(ps, _)
            && params_rel(ps@, p.parameters@)) && (items@[2] matches JsonVal::Str(vt)
            && p.value_type == vt) && from_json_rel(items@[3], p.value),
        None => !(v matches JsonVal::Arr(items) && items@.len() >= 4 && items@[0] is Str
            && items@[1] is Obj && items@[2] is Str),
    }
}

/// How an object's members read as parameters: keys in order, each
/// string value kept as text, any other value read as absent.
pub open spec fn params_rel(ps: Seq<(String, JsonVal)>, out: Seq<(String, Option<String>)>) -> bool {
    out.len() == ps.len() && forall|j: int|
        0 <= j < ps.len() ==> (#[trigger] out[j]).0 == ps[j].0 && (match ps[j].1 {
            JsonVal::Str(sv) => out[j].1 == Some(sv),
            _ => out[j].1 is None,
        })
}

impl VCardProperty {
    /// Reads one jCard property array.
    pub fn from_value(val: &JsonVal) -> (r: Option<VCardProperty>)
        ensures
            prop_rel(*val, r),
    {
        let items = match val {
            JsonVal::Arr(items) => items,
            _ => {
                return None;
            },
        };
        if items.len() < 4 {
            return None;
        }
        let name = match &items[0] {
            JsonVal::Str(s) => s.clone(),
            _ => {
                return None;
            },
        };
        let parameters = match &items[1] {
            JsonVal::Obj(ps, _) => {
                let np = ps.len();
                let mut out: Vec<(String, Option<String>)> = Vec::new();
                let mut j: usize = 0;
                while j < np
                    invariant
                        0 <= j <= np == ps@.len(),
                        out@.len() == j,
                        forall|m: int|
                            0 <= m < j ==> (#[trigger] out@[m]).0 == ps@[m].0 && (match ps@[m].1 {
                                JsonVal::Str(sv) => out@[m].1 == Some(sv),
                                _ => out@[m].1 is None,
                            }),
                    decreases np - j,
                {
                    let k = ps[j].0.clone();
                    let sv: Option<String> = match &ps[j].1 {
                        JsonVal::Str(s2) => Some(s2.clone()),
                        _ => None,
                    };
                    out.push((k, sv));
                    j = j + 1;
                }
                out
            },
            _ => {
                return None;
            },
        };
        let value_type = match &items[2] {
            JsonVal::Str(s) => s.clone(),
            _ => {
                return None;
            },
        };
        let value = VCardValue::from_json(&items[3]);
        Some(VCardProperty { name, parameters, value_type, value })
    }
}

/// The properties read from a list of jCard property arrays, keeping
/// the well-formed ones in order.
pub open spec fn props_rel(items: Seq<JsonVal>, ps: Seq<VCardProperty>) -> bool
    decreases items.len(),
{
    if items.len() == 0 {
        ps.len() == 0
    } else {
        if exists|p: VCardProperty| prop_rel(items.last(), Some(p)) {
            ps.len() >= 1 && prop_rel(items.last(), Some(ps.last())) && props_rel(
                items.drop_last(),
                ps.drop_last(),
            )
        } else {
            props_rel(items.drop_last(), ps)
        }
    }
}

/// The first property with the given name, scanning in order.
pub open spec fn find_prop_spec(ps: Seq<VCardProperty>, name: Seq<char>) -> Option<VCardProperty>
    decreases ps.len(),
{
    if ps.len() == 0 {
        None
    } else if ps[0].name@ == name {
        Some(ps[0])
    } else {
        find_prop_spec(ps.skip(1), name)
    }
}

/// The text of the first property with the given name, when its value
/// is plain text; nothing when no such property exists or its value
/// is structured.
pub open spec fn prop_text(ps: Seq<VCardProperty>, name: Seq<char>) -> Option<String> {
    match find_prop_spec(ps, name) {
        Some(p) => match p.value {
            VCardValue::Text(s) => Some(s),
            _ => None,
        },
        None => None,
    }
}

/// The value of the first parameter with the given key.
pub open spec fn find_param_spec(ps: Seq<(String, Option<String>)>, key: Seq<char>) -> Option<
    Option<String>,
>
    decreases ps.len(),
{
    if ps.len() == 0 {
        None
    } else if ps[0].0@ == key {
        Some(ps[0].1)
    } else {
        find_param_spec(ps.skip(1), key)
    }
}

proof fn lemma_find_prop_spec_at(ps: Seq<VCardProperty>, name: Seq<char>, i: int)
    requires
        0 <= i < ps.len(),
        ps[i].name@ == name,
        forall|j: int| 0 <= j < i ==> (#[trigger] ps[j]).name@ != name,
    ensures
        find_prop_spec(ps, name) == Some(ps[i]),
    decreases i,
{
    if ps[0].name@ == name {
        assert(i == 0);
    } else {
        let t = ps.skip(1);
        assert(forall|j: int| 0 <= j < i - 1 ==> #[trigger] t[j] == ps[j + 1]);
        lemma_find_prop_spec_at(t, name, i - 1);
        assert(t[i - 1] == ps[i]);
    }
}

proof fn lemma_find_prop_spec_none(ps: Seq<VCardProperty>, name: Seq<char>)
    requires
        forall|j: int| 0 <= j < ps.len() ==> (#[trigger] ps[j]).name@ != name,
    ensures
        find_prop_spec(ps, name) is None,
    decreases ps.len(),
{
    if ps.len() > 0 {
        let t = ps.skip(1);
        assert(forall|j: int| 0 <= j < t.len() ==> #[trigger] t[j] == ps[j + 1]);
        lemma_find_prop_spec_none(t, name);
    }
}

proof fn lemma_find_param_spec_at(ps: Seq<(String, Option<String>)>, key: Seq<char>, i: int)
    requires
        0 <= i < ps.len(),
        ps[i].0@ == key,
        forall|j: int| 0 <= j < i ==> (#[trigger] ps[j]).0@ != key,
    ensures
        find_param_spec(ps, key) == Some(ps[i].1),
    decreases i,
{
    if ps[0].0@ == key {
        assert(i == 0);
    } else {
        let t = ps.skip(1);
        assert(forall|j: int| 0 <= j < i - 1 ==> #[trigger] t[j] == ps[j + 1]);
        lemma_find_param_spec_at(t, key, i - 1);
        assert(t[i - 1] == ps[i]);
    }
}

proof fn lemma_find_param_spec_none(ps: Seq<(String, Option<String>)>, key: Seq<char>)
    requires
        forall|j: int| 0 <= j < ps.len() ==> (#[trigger] ps[j]).0@ != key,
    ensures
        find_param_spec(ps, key) is None,
    decreases ps.len(),
{
    if ps.len() > 0 {
        let t = ps.skip(1);
        assert(forall|j: int| 0 <= j < t.len() ==> #[trigger] t[j] == ps[j + 1]);
        lemma_find_param_spec_none(t, key);
    }
}

fn find_param<'a>(ps: &'a Vec<(String, Option<String>)>, key: &str) -> (r: Option<
    &'a Option<String>,
>)
    ensures
        match r {
            Some(v) => find_param_spec(ps@, key@) == Some(*v),
            None => find_param_spec(ps@, key@) is None,
        },
{
    let ks = key.to_owned();
    let n = ps.len();
    let mut i: usize = 0;
    while i < n
        invariant
            0 <= i <= n == ps@.len(),
            ks@ == key@,
            forall|j: int| 0 <= j < i ==> (#[trigger] ps@[j]).0@ != key@,
        decreases n - i,
    {
        if ps[i].0.eq(&ks) {
            proof {
                lemma_find_param_spec_at(ps@, key@, i as int);
            }
            return Some(&ps[i].1);
        }
        i = i + 1;
    }
    proof {
        lemma_find_param_spec_none(ps@, key@);
    }
    None
}

impl VCard {
    /// Parses the jCard array form: `["vcard", [property, ...]]`.
    pub fn from_array(arr: &Vec<JsonVal>) -> (r: Option<VCard>)
        ensures
            match r {
                Some(c) => arr@.len() == 2 && (arr@[0] matches JsonVal::Str(tag) && tag@
                    == "vcard"@) && (arr@[1] matches JsonVal::Arr(items) && props_rel(
                    items@,
                    c.properties@,
                )),
                None => !(arr@.len() == 2 && (arr@[0] matches JsonVal::Str(tag) && tag@
                    == "vcard"@) && arr@[1] is Arr),
            },
    {
        if arr.len() != 2 {
            return None;
        }
        match &arr[0] {
            JsonVal::Str(s) => {
                if !s.eq(&String::from_str("vcard")) {
                    return None;
                }
            },
            _ => {
                return None;
            },
        }
        let items = match &arr[1] {
            JsonVal::Arr(items) => items,
            _ => {
                return None;
            },
        };
        let n = items.len();
        let mut properties: Vec<VCardProperty> = Vec::new();
        let mut i: usize = 0;
        while i < n
            invariant
                0 <= i <= n == items@.len(),
                props_rel(items@.take(i as int), properties@),
            decreases n - i,
        {
            let ghost pre = items@.take(i as int);
            let ghost ops = properties@;
            match VCardProperty::from_value(&items[i]) {
                Some(p) => {
                    properties.push(p);
                },
                None => {
                    proof {
                        assert forall|q: VCardProperty| !prop_rel(items@[i as int], Some(q)) by {}
                    }
                },
            }
            proof {
                let post = items@.take(i + 1);
                assert(post.drop_last() =~= pre);
                assert(post.last() == items@[i as int]);
                if properties@.len() > ops.len() {
                    assert(properties@.drop_last() =~= ops);
                }
            }
            i = i + 1;
        }
        proof {
            assert(items@.take(n as int) =~= items@);
        }
        Some(VCard { properties })
    }

    /// The first property with the given name.
    fn find_prop(&self, name: &str) -> (r: Option<&VCardProperty>)
        ensures
            match r {
                Some(p) => find_prop_spec(self.properties@, name@) == Some(*p),
                None => find_prop_spec(self.properties@, name@) is None,
            },
    {
        let ns = name.to_owned();
        let n = self.properties.len();
        let mut i: usize = 0;
        while i < n
            invariant
                0 <= i <= n == self.properties@.len(),
                ns@ == name@,
                forall|j: int| 0 <= j < i ==> (#[trigger] self.properties@[j]).name@ != name@,
            decreases n - i,
        {
            if self.properties[i].name.eq(&ns) {
                proof {
                    lemma_find_prop_spec_at(self.properties@, name@, i as int);
                }
                return Some(&self.properties[i]);
            }
            i = i + 1;
        }
        proof {
            lemma_find_prop_spec_none(self.properties@, name@);
        }
        None
    }

    /// The text value of the first property with the given name.
    pub fn get_property_value(&self, name: &str) -> (r: Option<&String>)
        ensures
            match r {
                Some(s) => prop_text(self.properties@, name@) == Some(*s),
                None => prop_text(self.properties@, name@) is None,
            },
    {
        match self.find_prop(name) {
            Some(p) => p.value.as_str(),
            None => None,
        }
    }

    /// The formatted name: the text of the first `fn` property.
    pub fn name(&self) -> (r: Option<&String>)
        ensures
            match r {
                Some(s) => prop_text(self.properties@, "fn"@) == Some(*s),
                None => prop_text(self.properties@, "fn"@) is None,
            },
    {
        self.get_property_value("fn")
    }

    /// The email address: the text of the first `email` property.
    pub fn email(&self) -> (r: Option<&String>)
        ensures
            match r {
                Some(s) => prop_text(self.properties@, "email"@) == Some(*s),
                None => prop_text(self.properties@, "email"@) is None,
            },
    {
        self.get_property_value("email")
    }

    /// The telephone number: the text of the first `tel` property.
    pub fn tel(&self) -> (r: Option<&String>)
        ensures
            match r {
                Some(s) => prop_text(self.properties@, "tel"@) == Some(*s),
                None => prop_text(self.properties@, "tel"@) is None,
            },
    {
        self.get_property_value("tel")
    }

    /// The organization: the text of the first `org` property.
    pub fn org(&self) -> (r: Option<&String>)
        ensures
            match r {
                Some(s) => prop_text(self.properties@, "org"@) == Some(*s),
                None => prop_text(self.properties@, "org"@) is None,
            },
    {
        self.get_property_value("org")
    }

    /// The properties, in declaration order.
    pub fn properties(&self) -> (r: &Vec<VCardProperty>)
        ensures
            r == &self.properties,
    {
        &self.properties
    }

    /// The structured postal address of the first `adr` property: its
    /// seven structured components, and the `label` parameter's text
    /// when that parameter is a string; nothing when no `adr` property
    /// exists or the first one is not structured with seven parts.
    pub fn address(&self) -> (r: Option<VCardAddress>)
        ensures
            ({
                let fp = find_prop_spec(self.properties@, "adr"@);
                match r {
                    Some(a) => fp matches Some(p) && (p.value matches VCardValue::Structured(parts)
                        && parts@.len() >= 7 && a.po_box == parts@[0] && a.extended == parts@[1]
                        && a.street == parts@[2] && a.locality == parts@[3] && a.region
                        == parts@[4] && a.postal_code == parts@[5] && a.country == parts@[6])
                        && (match find_param_spec(p.parameters@, "label"@) {
                        Some(lv) => a.label == lv,
                        None => a.label is None,
                    }),
                    None => match fp {
                        Some(p) => !(p.value matches VCardValue::Structured(parts) && parts@.len()
                            >= 7),
                        None => true,
                    },
                }
            }),
    {
        let prop = match self.find_prop("adr") {
            Some(p) => p,
            None => {
                return None;
            },
        };
        let label: Option<String> = match find_param(&prop.parameters, "label") {
            Some(v) => match v {
                Some(s) => Some(s.clone()),
                None => None,
            },
            None => None,
        };
        match &prop.value {
            VCardValue::Structured(parts) => {
                if parts.len() >= 7 {
                    Some(
                        VCardAddress {
                            label,
                            po_box: parts[0].clone(),
                            extended: parts[1].clone(),
                            street: parts[2].clone(),
                            locality: parts[3].clone(),
                            region: parts[4].clone(),
                            postal_code: parts[5].clone(),
                            country: parts[6].clone(),
                        },
                    )
                } else {
                    None
                }
            },
            _ => None,
        }
    }
}

} // verus!
