use crate::frontend::ast::{spec_decimal, spec_mangle, text_of, usize_text, Type, TypeValue};
use crate::utils::loc::utf8_len;
use vstd::prelude::*;

verus! {

/// If one exists, the start symbol for a pulsar program is guaranteed to begin
/// with this prefix.
pub const MAIN_SYMBOL_PREFIX: &'static str = "pulsar_SF4main";

/// A symbol name, with its mangled form.
pub struct Name {
    pub unmangled: String,
    pub mangled: String,
    pub is_native: bool,
}

impl Name {
    /// A name that is not mangled: both forms are `value`.
    pub fn from(value: &str) -> (result: Self)
        ensures
            result.unmangled@ == value@,
            result.mangled@ == value@,
            !result.is_native,
    {
        Name { unmangled: value.to_owned(), mangled: value.to_owned(), is_native: false }
    }

    pub fn unmangled(&self) -> (result: &String)
        ensures
            *result == self.unmangled,
    {
        &self.unmangled
    }

    pub fn mangled(&self) -> (result: &String)
        ensures
            *result == self.mangled,
    {
        &self.mangled
    }
}

#[derive(Clone, Copy, PartialEq, Eq, Structural)]
pub enum Visibility {
    Public,
    Private,
    External,
}

impl Visibility {
    /// The word for this visibility.
    pub fn word(&self) -> (result: &'static str)
        ensures
            result@ == spec_visibility_word(*self),
    {
        match self {
            Visibility::Public => "public",
            Visibility::Private => "private",
            Visibility::External => "external",
        }
    }
}

/// How a name is displayed: `native` and the unmangled name for a native
/// name, and the mangled name otherwise.
pub open spec fn spec_name_text(name: Name) -> Seq<char> {
    if name.is_native {
        seq!['n', 'a', 't', 'i', 'v', 'e', ' '] + name.unmangled@
    } else {
        name.mangled@
    }
}

impl Name {
    /// How the name is displayed (see [`spec_name_text`]).
    pub fn to_text(&self) -> (result: String)
        ensures
            result@ == spec_name_text(*self),
    {
        if self.is_native {
            let native = "native ";
            proof {
                reveal_strlit("native ");
                assert(native@ =~= seq!['n', 'a', 't', 'i', 'v', 'e', ' ']);
            }
            let mut result = text_of(native);
            result.append(self.unmangled.as_str());
            result
        } else {
            self.mangled.clone()
        }
    }
}

/// The word for a visibility.
pub open spec fn spec_visibility_word(v: Visibility) -> Seq<char> {
    match v {
        Visibility::Public => "public"@,
        Visibility::Private => "private"@,
        Visibility::External => "external"@,
    }
}

/// A name with a visibility.
pub struct Label {
    pub name: Name,
    pub visibility: Visibility,
}

/// How a label is displayed: its visibility, a space, and its name.
pub open spec fn spec_label_text(label: Label) -> Seq<char> {
    spec_visibility_word(label.visibility) + seq![' '] + spec_name_text(label.name)
}

impl Label {
    pub fn from(name: Name, visibility: Visibility) -> (result: Label)
        ensures
            result.name == name,
            result.visibility == visibility,
    {
        Label { name, visibility }
    }

    /// How the label is displayed (see [`spec_label_text`]).
    pub fn to_text(&self) -> (result: String)
        ensures
            result@ == spec_label_text(*self),
    {
        let space = " ";
        proof {
            reveal_strlit(" ");
            assert(space@ =~= seq![' ']);
        }
        let mut result = text_of(self.visibility.word());
        result.append(space);
        let name = self.name.to_text();
        result.append(name.as_str());
        result
    }
}

/// The length in bytes of the name inside a named type, and zero for any
/// other type.
pub open spec fn name_bytes(t: Type) -> nat {
    match t.value {
        TypeValue::Name(name) => (utf8_len(name) as usize) as nat,
        _ => 0,
    }
}

/// The mangled names of the types `ts`, one after another.
pub open spec fn spec_mangles(ts: Seq<Type>) -> Seq<char>
    decreases ts.len(),
{
    if ts.len() == 0 {
        Seq::empty()
    } else {
        spec_mangles(ts.drop_last()) + spec_mangle(ts.last()@, name_bytes(ts.last()))
    }
}

/// The mangled name of a native function: `pulsar_SF`, the byte length of
/// its name, the name, then the number and mangled names of its inputs and
/// of its outputs.
pub open spec fn spec_native_mangle(
    value: Seq<char>,
    value_bytes: nat,
    inputs: Seq<Type>,
    outputs: Seq<Type>,
) -> Seq<char> {
    "pulsar_SF"@ + spec_decimal(value_bytes) + value + spec_decimal(inputs.len()) + spec_mangles(
        inputs,
    ) + spec_decimal(outputs.len()) + spec_mangles(outputs)
}

/// Appends the mangled names of `ts` to `out`.
fn append_mangles(out: &mut String, ts: &Vec<Type>)
    requires
        forall|i: int| 0 <= i < ts@.len() ==> !(#[trigger] ts@[i]@ is Var),
    ensures
        final(out)@ == old(out)@ + spec_mangles(ts@),
{
    let mut k: usize = 0;
    assert(ts@.subrange(0, 0) =~= Seq::<Type>::empty());
    while k < ts.len()
        invariant
            0 <= k <= ts@.len(),
            forall|i: int| 0 <= i < ts@.len() ==> !(#[trigger] ts@[i]@ is Var),
            out@ == old(out)@ + spec_mangles(ts@.subrange(0, k as int)),
        decreases ts@.len() - k,
    {
        let text = ts[k].mangle();
        out.append(text.as_str());
        proof {
            let pre = ts@.subrange(0, k + 1);
            assert(pre.drop_last() =~= ts@.subrange(0, k as int));
            assert(pre.last() == ts@[k as int]);
            assert(out@ =~= old(out)@ + spec_mangles(pre));
        }
        k = k + 1;
    }
    assert(ts@.subrange(0, ts@.len() as int) =~= ts@);
}

impl Name {
    /// The name of a native function `value` with the given input and output
    /// types, mangled (see [`spec_native_mangle`]).
    pub fn from_native(value: &String, inputs: &Vec<Type>, outputs: &Vec<Type>) -> (result: Self)
        requires
            forall|i: int| 0 <= i < inputs@.len() ==> !(#[trigger] inputs@[i]@ is Var),
            forall|i: int| 0 <= i < outputs@.len() ==> !(#[trigger] outputs@[i]@ is Var),
        ensures
            result.unmangled@ == value@,
            result.mangled@ == spec_native_mangle(
                value@,
                (utf8_len(*value) as usize) as nat,
                inputs@,
                outputs@,
            ),
            result.is_native,
    {
        let prefix = "pulsar_SF";
        proof {
            reveal_strlit("pulsar_SF");
        }
        let mut mangled = prefix.to_owned();
        let value_len = usize_text(value.as_str().len());
        mangled.append(value_len.as_str());
        mangled.append(value.as_str());
        let input_count = usize_text(inputs.len());
        mangled.append(input_count.as_str());
        append_mangles(&mut mangled, inputs);
        let output_count = usize_text(outputs.len());
        mangled.append(output_count.as_str());
        append_mangles(&mut mangled, outputs);
        Name { unmangled: value.clone(), mangled, is_native: true }
    }
}

} // verus!
