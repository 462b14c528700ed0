//! Descriptors: what a collector says of each stream that it measures.

use vstd::prelude::*;

verus! {

/// The identity of one measured stream.
///
/// Two descriptors with the same `id` describe the same stream. All
/// descriptors of one name carry the same `dim_hash`, the fingerprint of
/// the stream's label names and help text.
#[derive(Debug, PartialEq, Eq)]
pub struct Descriptor {
    pub id: u64,
    pub fq_name: String,
    pub dim_hash: u64,
}

/// A descriptor as mathematical values.
pub struct DescriptorView {
    pub id: u64,
    pub fq_name: Seq<char>,
    pub dim_hash: u64,
}

impl View for Descriptor {
    type V = DescriptorView;

    open spec fn view(&self) -> DescriptorView {
        DescriptorView { id: self.id, fq_name: self.fq_name@, dim_hash: self.dim_hash }
    }
}

impl DeepView for Descriptor {
    type V = DescriptorView;

    open spec fn deep_view(&self) -> DescriptorView {
        self@
    }
}

impl Clone for Descriptor {
    fn clone(&self) -> (r: Self)
        ensures
            r@ == self@,
    {
        Descriptor { id: self.id, fq_name: self.fq_name.clone(), dim_hash: self.dim_hash }
    }
}

/// The ids of the descriptors.
pub open spec fn ids_of(descriptors: Seq<DescriptorView>) -> Set<u64>
    decreases descriptors.len(),
{
    if descriptors.len() == 0 {
        Set::empty()
    } else {
        ids_of(descriptors.drop_last()).insert(descriptors.last().id)
    }
}

/// The sum of `a` and `b` in arithmetic modulo 2^64.
pub open spec fn wrapped_sum(a: u64, b: u64) -> u64 {
    ((a + b) % 0x1_0000_0000_0000_0000) as u64
}

/// The id of a collector with these descriptors: the sum, modulo 2^64, of
/// the ids of its descriptors, each id counted once.
pub open spec fn collector_id_of(descriptors: Seq<DescriptorView>) -> u64
    decreases descriptors.len(),
{
    if descriptors.len() == 0 {
        0
    } else {
        let rest = descriptors.drop_last();
        let id = descriptors.last().id;
        if ids_of(rest).contains(id) {
            collector_id_of(rest)
        } else {
            wrapped_sum(collector_id_of(rest), id)
        }
    }
}

/// `ids_of` holds the id of every descriptor, and no other.
pub proof fn lemma_ids_of(descriptors: Seq<DescriptorView>)
    ensures
        ids_of(descriptors).finite(),
        forall|i: int|
            0 <= i < descriptors.len() ==> ids_of(descriptors).contains(
                (#[trigger] descriptors[i]).id,
            ),
        forall|id: u64|
            ids_of(descriptors).contains(id) ==> exists|i: int|
                0 <= i < descriptors.len() && (#[trigger] descriptors[i]).id == id,
    decreases descriptors.len(),
{
    if descriptors.len() > 0 {
        let rest = descriptors.drop_last();
        lemma_ids_of(rest);
        assert forall|i: int| 0 <= i < descriptors.len() implies ids_of(descriptors).contains(
            (#[trigger] descriptors[i]).id,
        ) by {
            if i < rest.len() {
                assert(rest[i] == descriptors[i]);
            }
        }
        assert forall|id: u64| ids_of(descriptors).contains(id) implies exists|i: int|
            0 <= i < descriptors.len() && (#[trigger] descriptors[i]).id == id by {
            if ids_of(rest).contains(id) {
                let i = choose|i: int| 0 <= i < rest.len() && (#[trigger] rest[i]).id == id;
                assert(descriptors[i] == rest[i]);
            } else {
                assert(descriptors[descriptors.len() - 1].id == id);
            }
        }
    }
}

/// Whether `c` may stand in a name: an ASCII letter or an underscore, or a
/// colon where `colon` allows it.
pub open spec fn name_start(c: char, colon: bool) -> bool {
    ('a' <= c && c <= 'z') || ('A' <= c && c <= 'Z') || c == '_' || (colon && c == ':')
}

/// Whether `s` is a name: a name character, followed by name characters and
/// ASCII digits.
pub open spec fn is_name(s: Seq<char>, colon: bool) -> bool {
    &&& s.len() > 0
    &&& name_start(s[0], colon)
    &&& forall|i: int|
        0 < i < s.len() ==> name_start(#[trigger] s[i], colon) || ('0' <= s[i] && s[i] <= '9')
}

/// Whether a stream of this name, help text and label names can be
/// described: the help text is not empty, the name is a metric name, and
/// the label names are label names, no two of them the same.
pub open spec fn describable(
    fq_name: Seq<char>,
    help: Seq<char>,
    label_names: Seq<Seq<char>>,
) -> bool {
    &&& help.len() > 0
    &&& is_name(fq_name, true)
    &&& forall|i: int| 0 <= i < label_names.len() ==> is_name(#[trigger] label_names[i], false)
    &&& label_names.no_duplicates()
}

/// The id and the fingerprint of label names and help text that the
/// descriptor of a stream carries.
pub uninterp spec fn stream_identity(
    fq_name: Seq<char>,
    help: Seq<char>,
    label_names: Seq<Seq<char>>,
) -> (u64, u64);

#[verifier::external_type_specification]
#[verifier::external_body]
pub struct ExPrometheusError(prometheus::Error);

/// Has `prometheus::core::Desc::new` describe a stream without constant
/// labels, and hands back the id and the fingerprint of the description.
///
/// Trusted: that the call succeeds exactly on the streams that
/// `describable` admits, and that the two numbers depend on nothing but
/// the three arguments.
#[verifier::external_body]
pub(crate) fn identify(fq_name: &String, help: &String, label_names: &Vec<String>) -> (r: Result<
    (u64, u64),
    prometheus::Error,
>)
    ensures
        r is Ok <==> describable(fq_name@, help@, label_names.deep_view()),
        r matches Ok(identity) ==> identity == stream_identity(
            fq_name@,
            help@,
            label_names.deep_view(),
        ),
{
    let constant = std::collections::HashMap::new();
    let desc = prometheus::core::Desc::new(
        fq_name.clone(),
        help.clone(),
        label_names.clone(),
        constant,
    )?;
    Ok((desc.id, desc.dim_hash))
}

} // verus!
