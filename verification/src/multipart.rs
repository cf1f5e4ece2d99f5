//! Multipart form submissions: the fields by name, and reading them as text
//! or numbers.

use vstd::prelude::*;
use vstd::string::{StringExecFns, StringSliceAdditionalSpecFns};
use vstd::utf8::*;
use crate::http::{ErrorKind, HttpError};
use crate::text::{
    parsed_i16, parsed_i32, parsed_i64, parse_i16, parse_i32, parse_i64, str_eq, str_from_utf8,
    utf8_error_text,
};

verus! {

broadcast use vstd::utf8::encode_utf8_decode_utf8;

/// What a part's content disposition says: the field name and the name of
/// the uploaded file.
#[derive(Clone, Debug)]
pub struct FieldDisposition {
    pub name: Option<String>,
    pub filename: Option<String>,
}

/// One part of a multipart body, as it arrives. The disposition is missing
/// where the browser uploaded no file.
#[derive(Clone, Debug)]
pub struct FormPart {
    pub mime: String,
    pub disposition: Option<FieldDisposition>,
    pub content: Vec<u8>,
}

/// A named field of a form.
#[derive(Clone, Debug)]
pub struct FormField {
    pub mime: String,
    pub disposition: FieldDisposition,
    pub content: Vec<u8>,
}

/// A multipart form: its fields under their names, no name twice.
#[derive(Debug)]
pub struct MultipartForm {
    pub(crate) content: Vec<(String, FormField)>,
}

/// The fields under their names; a later entry replaces an earlier one with
/// the same name.
pub open spec fn fields_of(content: Seq<(String, FormField)>) -> Map<Seq<char>, FormField>
    decreases content.len(),
{
    if content.len() == 0 {
        Map::empty()
    } else {
        fields_of(content.drop_last()).insert(content.last().0@, content.last().1)
    }
}

/// Whether no two entries share a name.
pub open spec fn distinct_names(content: Seq<(String, FormField)>) -> bool {
    forall|i: int, j: int|
        0 <= i < j < content.len() ==> #[trigger] content[i].0@ != #[trigger] content[j].0@
}

/// The fields that a body gives, or `None` where a part has a disposition
/// without a field name. Parts without a disposition are left out; a later
/// part replaces an earlier one with the same name.
pub open spec fn parsed_fields(parts: Seq<FormPart>) -> Option<Map<Seq<char>, FormField>>
    decreases parts.len(),
{
    if parts.len() == 0 {
        Some(Map::empty())
    } else {
        match parsed_fields(parts.drop_last()) {
            None => None,
            Some(m) => {
                let p = parts.last();
                match p.disposition {
                    None => Some(m),
                    Some(d) => match d.name {
                        None => None,
                        Some(n) => Some(
                            m.insert(n@, FormField { mime: p.mime, disposition: d, content: p.content }),
                        ),
                    },
                }
            },
        }
    }
}

/// How looking up a field answers: the field, or the text of the refusal
/// (a bad request).
pub open spec fn field_outcome(fields: Map<Seq<char>, FormField>, key: Seq<char>) -> Result<
    FormField,
    Seq<char>,
> {
    if fields.contains_key(key) {
        Ok(fields[key])
    } else {
        Err("Could not find "@ + key)
    }
}

/// How reading a field as text answers: its content decoded from UTF-8, or
/// the text of the refusal (a bad request).
pub open spec fn text_outcome(fields: Map<Seq<char>, FormField>, key: Seq<char>) -> Result<
    Seq<char>,
    Seq<char>,
> {
    match field_outcome(fields, key) {
        Err(m) => Err(m),
        Ok(f) => if valid_utf8(f.content@) {
            Ok(decode_utf8(f.content@))
        } else {
            Err("Could not parse "@ + key + " as string: "@ + utf8_error_text(f.content@))
        },
    }
}

/// How reading a field as a number answers: the number, or the text of the
/// refusal (a bad request).
pub open spec fn number_outcome<T: FormNumber>(fields: Map<Seq<char>, FormField>, key: Seq<char>) -> Result<
    T,
    Seq<char>,
> {
    match text_outcome(fields, key) {
        Err(m) => Err(m),
        Ok(s) => match T::parsed(s) {
            Some(v) => Ok(v),
            None => Err("Could not parse "@ + key),
        },
    }
}

/// A field of a parsed form is the last part that carries its name.
pub proof fn lemma_last_part_wins(parts: Seq<FormPart>, name: Seq<char>, i: int)
    requires
        0 <= i < parts.len(),
        parsed_fields(parts) is Some,
        parts[i].disposition matches Some(d) && d.name matches Some(n) && n@ == name,
        forall|j: int|
            i < j < parts.len() ==> !(#[trigger] parts[j].disposition matches Some(d) && d.name matches Some(
                n,
            ) && n@ == name),
    ensures
        parsed_fields(parts).unwrap().contains_key(name),
        parsed_fields(parts).unwrap()[name] == (FormField {
            mime: parts[i].mime,
            disposition: parts[i].disposition.unwrap(),
            content: parts[i].content,
        }),
    decreases parts.len(),
{
    let init = parts.drop_last();
    assert(parts[parts.len() - 1] == parts.last());
    if i < parts.len() - 1 {
        assert forall|j: int| i < j < init.len() implies !(#[trigger] init[j].disposition matches Some(d)
            && d.name matches Some(n) && n@ == name) by {
            assert(init[j] == parts[j]);
        }
        assert(init[i] == parts[i]);
        lemma_last_part_wins(init, name, i);
    }
}

proof fn lemma_fields_of_last(content: Seq<(String, FormField)>, key: Seq<char>, i: int)
    requires
        0 <= i < content.len(),
        content[i].0@ == key,
        forall|j: int| i < j < content.len() ==> #[trigger] content[j].0@ != key,
    ensures
        fields_of(content).contains_key(key),
        fields_of(content)[key] == content[i].1,
    decreases content.len(),
{
    if i < content.len() - 1 {
        assert forall|j: int| i < j < content.drop_last().len() implies #[trigger] content.drop_last()[j].0@
            != key by {
            assert(content.drop_last()[j] == content[j]);
        }
        lemma_fields_of_last(content.drop_last(), key, i);
    }
}

proof fn lemma_fields_of_absent(content: Seq<(String, FormField)>, key: Seq<char>)
    requires
        forall|j: int| 0 <= j < content.len() ==> #[trigger] content[j].0@ != key,
    ensures
        !fields_of(content).contains_key(key),
    decreases content.len(),
{
    if content.len() > 0 {
        assert forall|j: int| 0 <= j < content.drop_last().len() implies #[trigger] content.drop_last()[j].0@
            != key by {
            assert(content.drop_last()[j] == content[j]);
        }
        lemma_fields_of_absent(content.drop_last(), key);
    }
}

/// With distinct names, the fields are exactly the entries.
proof fn lemma_fields_of_distinct(content: Seq<(String, FormField)>, key: Seq<char>)
    requires
        distinct_names(content),
    ensures
        fields_of(content).contains_key(key) <==> exists|i: int|
            0 <= i < content.len() && #[trigger] content[i].0@ == key,
        forall|i: int|
            0 <= i < content.len() && #[trigger] content[i].0@ == key ==> fields_of(content)[key]
                == content[i].1,
{
    if exists|i: int| 0 <= i < content.len() && #[trigger] content[i].0@ == key {
        let i = choose|i: int| 0 <= i < content.len() && #[trigger] content[i].0@ == key;
        lemma_fields_of_last(content, key, i);
    } else {
        lemma_fields_of_absent(content, key);
    }
}

impl MultipartForm {
    #[verifier::type_invariant]
    closed spec fn names_distinct(self) -> bool {
        distinct_names(self.content@)
    }

    /// The entries of the form: each name with its field.
    pub closed spec fn entries_view(self) -> Seq<(String, FormField)> {
        self.content@
    }

    /// The entries of the form, in the order in which their names first
    /// stood last in the body.
    pub fn entries(&self) -> (r: &Vec<(String, FormField)>)
        ensures
            r@ == self.entries_view(),
            distinct_names(r@),
    {
        proof {
            use_type_invariant(self);
        }
        &self.content
    }

    /// Where the field under this name stands: the last entry with it.
    pub fn position(&self, key: &str) -> (r: Option<usize>)
        ensures
            r is Some <==> fields_of(self.entries_view()).contains_key(key@),
            r matches Some(i) ==> i < self.entries_view().len() && self.entries_view()[i as int].0@ == key@
                && fields_of(self.entries_view())[key@] == self.entries_view()[i as int].1,
    {
        let mut i = self.content.len();
        while i > 0
            invariant
                i <= self.content.len(),
                forall|j: int| i <= j < self.content.len() ==> #[trigger] self.entries_view()[j].0@ != key@,
            decreases i,
        {
            if str_eq(self.content[i - 1].0.as_str(), key) {
                proof {
                    lemma_fields_of_last(self.entries_view(), key@, i - 1);
                }
                return Some(i - 1);
            }
            i = i - 1;
        }
        proof {
            assert forall|j: int| 0 <= j < self.entries_view().len() implies #[trigger] self.entries_view()[j].0@
                != key@ by {
                assert(i <= j);
            }
            lemma_fields_of_absent(self.entries_view(), key@);
        }
        None
    }

    /// The field under this name.
    pub fn get(&self, key: &str) -> (r: Result<&FormField, HttpError>)
        ensures
            r is Ok <==> field_outcome(fields_of(self.entries_view()), key@) is Ok,
            r matches Ok(f) ==> field_outcome(fields_of(self.entries_view()), key@) == Ok::<
                FormField,
                Seq<char>,
            >(*f),
            r matches Err(e) ==> e.kind == ErrorKind::BadRequest && field_outcome(
                fields_of(self.entries_view()),
                key@,
            ) == Err::<FormField, Seq<char>>(e.message@),
    {
        match self.position(key) {
            Some(i) => Ok(&self.content[i].1),
            None => Err(HttpError { kind: ErrorKind::BadRequest, message: "Could not find ".to_owned().concat(key) }),
        }
    }

    /// The content of the field under this name, as UTF-8 text.
    pub fn get_content_str(&self, key: &str) -> (r: Result<&str, HttpError>)
        ensures
            r is Ok <==> text_outcome(fields_of(self.entries_view()), key@) is Ok,
            r matches Ok(s) ==> text_outcome(fields_of(self.entries_view()), key@) == Ok::<
                Seq<char>,
                Seq<char>,
            >(s@),
            r matches Err(e) ==> e.kind == ErrorKind::BadRequest && text_outcome(
                fields_of(self.entries_view()),
                key@,
            ) == Err::<Seq<char>, Seq<char>>(e.message@),
    {
        let field = self.get(key)?;
        match str_from_utf8(field.content.as_slice()) {
            Ok(s) => {
                proof {
                    assert(decode_utf8(encode_utf8(s@)) == s@);
                }
                Ok(s)
            },
            Err(text) => {
                let message = "Could not parse ".to_owned().concat(key).concat(" as string: ").concat(
                    text.as_str(),
                );
                Err(HttpError { kind: ErrorKind::BadRequest, message })
            },
        }
    }

    /// The content of the field under this name, read as a number.
    pub fn get_parsed_content<T: FormNumber>(&self, key: &str) -> (r: Result<T, HttpError>)
        ensures
            r is Ok <==> number_outcome::<T>(fields_of(self.entries_view()), key@) is Ok,
            r matches Ok(v) ==> number_outcome::<T>(fields_of(self.entries_view()), key@) == Ok::<
                T,
                Seq<char>,
            >(v),
            r matches Err(e) ==> e.kind == ErrorKind::BadRequest && number_outcome::<T>(
                fields_of(self.entries_view()),
                key@,
            ) == Err::<T, Seq<char>>(e.message@),
    {
        let text = self.get_content_str(key)?;
        match T::parse_text(text) {
            Some(v) => Ok(v),
            None => Err(HttpError { kind: ErrorKind::BadRequest, message: "Could not parse ".to_owned().concat(key) }),
        }
    }
}

proof fn lemma_replace_field(
    content: Seq<(String, FormField)>,
    kept: Seq<(String, FormField)>,
    name: String,
    f: FormField,
)
    requires
        distinct_names(content),
        forall|j: int| 0 <= j < kept.len() ==> #[trigger] kept[j].0@ != name@,
        forall|j: int| 0 <= j < kept.len() ==> content.contains(#[trigger] kept[j]),
        forall|j: int|
            0 <= j < content.len() && #[trigger] content[j].0@ != name@ ==> kept.contains(content[j]),
        distinct_names(kept),
    ensures
        distinct_names(kept.push((name, f))),
        fields_of(kept.push((name, f))) =~= fields_of(content).insert(name@, f),
{
    let out = kept.push((name, f));
    assert forall|i: int, j: int| 0 <= i < j < out.len() implies #[trigger] out[i].0@ != #[trigger] out[j].0@ by {
        if j < kept.len() {
            assert(out[i] == kept[i] && out[j] == kept[j]);
        } else {
            assert(out[i] == kept[i]);
        }
    }
    assert forall|k: Seq<char>| #[trigger] fields_of(out).contains_key(k) == fields_of(content).insert(name@, f).contains_key(k)
        && (fields_of(out).contains_key(k) ==> fields_of(out)[k] == fields_of(content).insert(name@, f)[k]) by {
        lemma_fields_of_distinct(out, k);
        lemma_fields_of_distinct(content, k);
        lemma_fields_of_distinct(kept, k);
        if k == name@ {
            assert(out[out.len() - 1].0@ == k);
        } else {
            if fields_of(content).contains_key(k) {
                let i = choose|i: int| 0 <= i < content.len() && #[trigger] content[i].0@ == k;
                assert(kept.contains(content[i]));
                let x = choose|x: int| 0 <= x < kept.len() && kept[x] == content[i];
                assert(out[x] == kept[x]);
                assert(out[x].0@ == k);
            }
            if fields_of(out).contains_key(k) {
                let x = choose|x: int| 0 <= x < out.len() && #[trigger] out[x].0@ == k;
                assert(x < kept.len());
                assert(out[x] == kept[x]);
                assert(content.contains(kept[x]));
                let i = choose|i: int| 0 <= i < content.len() && content[i] == kept[x];
                assert(content[i].0@ == k);
            }
        }
    }
}

proof fn lemma_parsed_fields_none_stays(parts: Seq<FormPart>, n: int)
    requires
        0 <= n <= parts.len(),
        parsed_fields(parts.take(n)) is None,
    ensures
        parsed_fields(parts) is None,
    decreases parts.len(),
{
    if n == parts.len() {
        assert(parts.take(n) =~= parts);
    } else {
        assert(parts.drop_last().take(n) =~= parts.take(n));
        lemma_parsed_fields_none_stays(parts.drop_last(), n);
    }
}

/// Collects the parts of a body into a form. Parts without a disposition
/// are skipped; a part whose disposition has no field name refuses the
/// whole form; a later part replaces an earlier one with the same name.
pub fn parse_multipart(parts: Vec<FormPart>) -> (r: Result<MultipartForm, HttpError>)
    ensures
        r is Ok <==> parsed_fields(parts@) is Some,
        r matches Ok(form) ==> distinct_names(form.entries_view()) && fields_of(form.entries_view())
            == parsed_fields(parts@).unwrap(),
        r matches Err(e) ==> e.kind == ErrorKind::BadRequest && e.message@
            == "Missing form name in ContentDisposition"@,
{
    let ghost all = parts@;
    let mut rest = parts;
    let mut content: Vec<(String, FormField)> = Vec::new();
    let ghost mut done: int = 0;
    while rest.len() > 0
        invariant
            0 <= done <= all.len(),
            all == parts@,
            rest@ == all.skip(done),
            parsed_fields(all.take(done)) is Some,
            distinct_names(content@),
            fields_of(content@) == parsed_fields(all.take(done)).unwrap(),
        decreases rest.len(),
    {
        let part = rest.remove(0);
        proof {
            assert(all.skip(done)[0] == part);
            assert(rest@ =~= all.skip(done + 1));
            assert(all.take(done + 1).drop_last() =~= all.take(done));
            assert(all.take(done + 1).last() == part);
            done = done + 1;
        }
        let FormPart { mime, disposition, content: bytes } = part;
        match disposition {
            None => {},
            Some(d) => {
                let name = match &d.name {
                    Some(n) => n.clone(),
                    None => {
                        proof {
                            assert(parsed_fields(all.take(done)) is None);
                            lemma_parsed_fields_none_stays(all, done);
                            assert(parts@ == all);
                        }
                        return Err(HttpError::new(ErrorKind::BadRequest, "Missing form name in ContentDisposition"));
                    },
                };
                let ghost before = content@;
                let mut i: usize = 0;
                let mut found = false;
                while i < content.len()
                    invariant
                        i <= content.len(),
                        content@ == before,
                        !found ==> forall|j: int| 0 <= j < i ==> #[trigger] before[j].0@ != name@,
                        found ==> i < content.len() && before[i as int].0@ == name@,
                    ensures
                        i <= content.len(),
                        content@ == before,
                        !found ==> i == content.len() && forall|j: int| 0 <= j < i ==> #[trigger] before[j].0@ != name@,
                        found ==> i < content.len() && before[i as int].0@ == name@,
                    decreases content.len() - i,
                {
                    if str_eq(content[i].0.as_str(), name.as_str()) {
                        found = true;
                        break;
                    }
                    i = i + 1;
                }
                if found {
                    content.remove(i);
                }
                let ghost kept = content@;
                proof {
                    if found {
                        assert(kept =~= before.remove(i as int));
                        assert forall|j: int| 0 <= j < kept.len() implies #[trigger] kept[j].0@ != name@ by {
                            if j < i {
                                assert(kept[j] == before[j]);
                            } else {
                                assert(kept[j] == before[j + 1]);
                            }
                        }
                        assert forall|j: int| 0 <= j < kept.len() implies before.contains(#[trigger] kept[j]) by {
                            if j < i {
                                assert(kept[j] == before[j]);
                            } else {
                                assert(kept[j] == before[j + 1]);
                            }
                        }
                        assert forall|j: int|
                            0 <= j < before.len() && #[trigger] before[j].0@ != name@ implies kept.contains(before[j]) by {
                            if j < i {
                                assert(kept[j] == before[j]);
                            } else {
                                assert(j != i);
                                assert(kept[j - 1] == before[j]);
                            }
                        }
                        assert forall|a: int, b: int| 0 <= a < b < kept.len() implies #[trigger] kept[a].0@
                            != #[trigger] kept[b].0@ by {
                            let ai = if a < i { a } else { a + 1 };
                            let bi = if b < i { b } else { b + 1 };
                            assert(kept[a] == before[ai]);
                            assert(kept[b] == before[bi]);
                        }
                    } else {
                        assert(i == before.len());
                        assert forall|j: int| 0 <= j < kept.len() implies #[trigger] kept[j].0@ != name@ by {
                            assert(kept[j] == before[j]);
                        }
                        assert forall|j: int| 0 <= j < before.len() implies before.contains(#[trigger] before[j]) by {
                            assert(before[j] == before[j]);
                        }
                        assert forall|j: int|
                            0 <= j < before.len() && #[trigger] before[j].0@ != name@ implies kept.contains(before[j]) by {
                            assert(kept[j] == before[j]);
                        }
                    }
                }
                let field = FormField { mime, disposition: d, content: bytes };
                proof {
                    lemma_replace_field(before, kept, name, field);
                }
                content.push((name, field));
            },
        }
    }
    proof {
        assert(all.take(done) =~= all);
    }
    Ok(MultipartForm { content })
}

/// The numbers that form fields are read as.
pub trait FormNumber: Sized {
    /// What reading a text gives.
    spec fn parsed(s: Seq<char>) -> Option<Self>;

    /// Reads a decimal number.
    fn parse_text(s: &str) -> (r: Option<Self>)
        ensures
            r == Self::parsed(s@),
    ;
}

impl FormNumber for i64 {
    open spec fn parsed(s: Seq<char>) -> Option<i64> {
        parsed_i64(s)
    }

    fn parse_text(s: &str) -> (r: Option<i64>) {
        match parse_i64(s) {
            Ok(v) => Some(v),
            Err(_) => None,
        }
    }
}

impl FormNumber for i32 {
    open spec fn parsed(s: Seq<char>) -> Option<i32> {
        parsed_i32(s)
    }

    fn parse_text(s: &str) -> (r: Option<i32>) {
        parse_i32(s)
    }
}

impl FormNumber for i16 {
    open spec fn parsed(s: Seq<char>) -> Option<i16> {
        parsed_i16(s)
    }

    fn parse_text(s: &str) -> (r: Option<i16>) {
        parse_i16(s)
    }
}

} // verus!
