use vstd::prelude::*;
use vstd::string::StringExecFns;

verus! {

/// A type written in a system definition, reduced to what the definition's grammar reads.
pub enum TypeShape {
    /// A path type, by its segments.
    Path(Vec<Segment>),
    /// A reference to a type; `true` when it is mutable.
    Ref(bool, Box<TypeShape>),
    /// A tuple of types.
    Tuple(Vec<TypeShape>),
    /// Any other type.
    Other,
}

/// One segment of a path type: its name and its arguments.
pub struct Segment {
    pub name: String,
    pub args: SegmentArgs,
}

/// The arguments of a path segment.
pub enum SegmentArgs {
    /// No arguments.
    Plain,
    /// Arguments in angle brackets.
    Angle(Vec<GenericArg>),
    /// Arguments in parentheses, as in a function type.
    Paren,
}

/// One argument in angle brackets.
pub enum GenericArg {
    /// A type.
    Type(TypeShape),
    /// A lifetime, a constant or a binding.
    Other,
}

/// Why a system definition is refused.
#[derive(Debug, Clone, Copy, PartialEq, Eq, Structural)]
pub enum SysDefError {
    /// The path has no `SystemData` segment.
    Missing,
    /// `SystemData` does not have exactly one type argument.
    ArgumentCount,
    /// The argument of `SystemData` is not a tuple.
    NotTuple,
    /// The arguments of `SystemData` are not in angle brackets.
    Malformed,
    /// The tuple is empty: a system must specify at least one component.
    NoComponent,
    /// An entry of the tuple is not a reference to a component.
    NotReference,
    /// An entry of the tuple refers to something other than a path type.
    NotPathType,
}

/// The name that marks the segment holding a system definition.
pub open spec fn system_data_name() -> Seq<char> {
    seq!['S', 'y', 's', 't', 'e', 'm', 'D', 'a', 't', 'a']
}

/// The name of the entity id component.
pub open spec fn entity_id_name() -> Seq<char> {
    seq!['E', 'n', 't', 'i', 't', 'y', 'I', 'd']
}

/// Does the type name the entity id: a path with a segment of that name?
pub open spec fn names_entity_id(ty: TypeShape) -> bool {
    match ty {
        TypeShape::Path(segs) => exists|i: int| 0 <= i < segs@.len() && (#[trigger] segs@[i]).name@ == entity_id_name(),
        _ => false,
    }
}

/// What one entry of a definition tuple gives: mutability and path of a referenced component.
pub open spec fn spec_entry(ty: TypeShape) -> Result<(bool, Seq<Segment>), SysDefError> {
    match ty {
        TypeShape::Ref(m, inner) => match *inner {
            TypeShape::Path(p) => Ok((m, p@)),
            _ => Err(SysDefError::NotPathType),
        },
        _ => Err(SysDefError::NotReference),
    }
}

/// `"EntityId".to_owned()`.
fn entity_id_string() -> (s: String)
    ensures
        s@ == entity_id_name(),
{
    let s = "EntityId";
    proof {
        reveal_strlit("EntityId");
    }
    s.to_owned()
}

/// `"SystemData".to_owned()`.
fn system_data_string() -> (s: String)
    ensures
        s@ == system_data_name(),
{
    let s = "SystemData";
    proof {
        reveal_strlit("SystemData");
    }
    s.to_owned()
}

/// Checks whether the entity id is requested: the type is a path naming it.
pub fn check_entity_id(ty: &TypeShape) -> (b: bool)
    ensures
        b == names_entity_id(*ty),
{
    match ty {
        TypeShape::Path(segs) => {
            let name = entity_id_string();
            let mut i: usize = 0;
            while i < segs.len()
                invariant
                    i <= segs@.len(),
                    name@ == entity_id_name(),
                    *ty == TypeShape::Path(*segs),
                    forall|j: int| 0 <= j < i ==> segs@[j].name@ != entity_id_name(),
                decreases segs@.len() - i,
            {
                if segs[i].name == name {
                    proof {
                        assert(segs@[i as int].name@ == entity_id_name());
                    }
                    return true;
                }
                i = i + 1;
            }
            false
        },
        _ => false,
    }
}

/// The mutability of a component reference in the definition tuple.
pub fn parse_sys_def_tuple_entry(elem: &TypeShape) -> (r: Result<bool, SysDefError>)
    ensures
        r is Ok <==> spec_entry(*elem) is Ok,
        r matches Ok(m) ==> m == entry_mut(*elem),
        r matches Err(e) ==> spec_entry(*elem) == Err::<(bool, Seq<Segment>), SysDefError>(e),
{
    match elem {
        TypeShape::Ref(m, inner) => match &**inner {
            TypeShape::Path(_) => Ok(*m),
            _ => Err(SysDefError::NotPathType),
        },
        _ => Err(SysDefError::NotReference),
    }
}

/// The mutability of an accepted entry.
pub open spec fn entry_mut(ty: TypeShape) -> bool {
    spec_entry(ty)->Ok_0.0
}

/// How a system reads its components: whether the entity id comes first, and for each
/// component reference after it, whether it is mutable.
pub struct SysDefLayout {
    pub provide_ent_id: bool,
    pub mutability: Vec<bool>,
}

/// The entries of a definition tuple from `skip` on are all component references.
pub open spec fn entries_ok(elems: Seq<TypeShape>, skip: int) -> bool {
    forall|j: int| skip <= j < elems.len() ==> (#[trigger] spec_entry(elems[j])) is Ok
}

/// Entry `i` is the first refused one from `skip` on, refused with `e`.
pub open spec fn first_refusal(elems: Seq<TypeShape>, skip: int, i: int, e: SysDefError) -> bool {
    &&& skip <= i < elems.len()
    &&& spec_entry(elems[i]) == Err::<(bool, Seq<Segment>), SysDefError>(e)
    &&& forall|j: int| skip <= j < i ==> (#[trigger] spec_entry(elems[j])) is Ok
}

/// `layout` is what the definition tuple `elems` describes.
pub open spec fn layout_of(elems: Seq<TypeShape>, layout: SysDefLayout) -> bool {
    &&& elems.len() > 0
    &&& layout.provide_ent_id == names_entity_id(elems[0])
    &&& layout.mutability@.len() == elems.len() - skipped(elems[0])
    &&& forall|j: int| 0 <= j < layout.mutability@.len() ==> layout.mutability@[j] == entry_mut(elems[j + skipped(elems[0])])
}

/// The definition tuple in the arguments of a `SystemData` segment.
pub open spec fn tuple_of(seg: Segment) -> Seq<TypeShape> {
    seg.args->Angle_0@[0]->Type_0->Tuple_0@
}

/// How many entries a tuple starting with `first` skips: the entity id, when it names it.
pub open spec fn skipped(first: TypeShape) -> int {
    if names_entity_id(first) { 1 } else { 0 }
}

/// Parses the contents of the system definition tuple: whether the entity id is asked for
/// (a first entry naming it, which is then not a component), and the mutability of each
/// component reference. The first entry that is no component reference refuses the tuple.
pub fn parse_sys_def_tuple(elems: &Vec<TypeShape>) -> (r: Result<SysDefLayout, SysDefError>)
    ensures
        elems@.len() == 0 ==> r == Err::<SysDefLayout, SysDefError>(SysDefError::NoComponent),
        elems@.len() > 0 ==> (r is Ok <==> entries_ok(elems@, skipped(elems@[0]))),
        r matches Err(e) ==> (elems@.len() == 0 || exists|i: int| first_refusal(elems@, skipped(elems@[0]), i, e)),
        r matches Ok(layout) ==> layout_of(elems@, layout),
{
    if elems.len() == 0 {
        return Err(SysDefError::NoComponent);
    }
    let provide_ent_id = check_entity_id(&elems[0]);
    let skip: usize = if provide_ent_id { 1 } else { 0 };
    let mut mutability: Vec<bool> = Vec::new();
    let mut i: usize = skip;
    while i < elems.len()
        invariant
            skip <= i <= elems@.len(),
            skip == skipped(elems@[0]),
            skip <= 1,
            elems@.len() > 0,
            mutability@.len() == i - skip,
            forall|j: int| skip <= j < i ==> (#[trigger] spec_entry(elems@[j])) is Ok,
            forall|j: int| 0 <= j < mutability@.len() ==> mutability@[j] == entry_mut(elems@[j + skip]),
        decreases elems@.len() - i,
    {
        match parse_sys_def_tuple_entry(&elems[i]) {
            Ok(m) => {
                mutability.push(m);
            },
            Err(e) => {
                proof {
                    assert(first_refusal(elems@, skip as int, i as int, e));
                }
                return Err(e);
            },
        }
        i = i + 1;
    }
    Ok(SysDefLayout { provide_ent_id, mutability })
}

/// What the arguments of the `SystemData` segment give.
pub open spec fn segment_outcome(seg: Segment) -> Option<SysDefError> {
    match seg.args {
        SegmentArgs::Angle(args) => if args@.len() != 1 {
            Some(SysDefError::ArgumentCount)
        } else {
            match args@[0] {
                GenericArg::Type(TypeShape::Tuple(_)) => None,
                _ => Some(SysDefError::NotTuple),
            }
        },
        _ => Some(SysDefError::Malformed),
    }
}

/// Segment `i` is the first one named `SystemData`.
pub open spec fn first_system_data(segs: Seq<Segment>, i: int) -> bool {
    &&& 0 <= i < segs.len()
    &&& segs[i].name@ == system_data_name()
    &&& forall|j: int| 0 <= j < i ==> (#[trigger] segs[j]).name@ != system_data_name()
}

/// Finds the `SystemData` segment of a system's data type and parses its tuple. Returns the
/// position of the segment and the layout of the tuple. A path without such a segment, a
/// segment without exactly one type argument in angle brackets, or an argument that is no
/// tuple, is refused.
pub fn parse_raw_sys_def(segs: &Vec<Segment>) -> (r: Result<(usize, SysDefLayout), SysDefError>)
    ensures
        (forall|j: int| 0 <= j < segs@.len() ==> (#[trigger] segs@[j]).name@ != system_data_name()) ==> r
            == Err::<(usize, SysDefLayout), SysDefError>(SysDefError::Missing),
        forall|i: int| first_system_data(segs@, i) ==> {
            &&& segment_outcome(segs@[i]) matches Some(e) ==> r == Err::<(usize, SysDefLayout), SysDefError>(e)
            &&& segment_outcome(segs@[i]) is None ==> (r is Ok <==> (tuple_of(segs@[i]).len() > 0
                && entries_ok(tuple_of(segs@[i]), skipped(tuple_of(segs@[i])[0]))))
            &&& segment_outcome(segs@[i]) is None && tuple_of(segs@[i]).len() == 0 ==> r == Err::<(usize, SysDefLayout), SysDefError>(SysDefError::NoComponent)
            &&& (r matches Err(e) ==> (segment_outcome(segs@[i]) is Some || tuple_of(segs@[i]).len() == 0
                || exists|k: int| first_refusal(tuple_of(segs@[i]), skipped(tuple_of(segs@[i])[0]), k, e)))
            &&& (r matches Ok((p, layout)) ==> p == i && layout_of(tuple_of(segs@[i]), layout))
        },
{
    let name = system_data_string();
    let mut i: usize = 0;
    while i < segs.len()
        invariant
            i <= segs@.len(),
            name@ == system_data_name(),
            forall|j: int| 0 <= j < i ==> (#[trigger] segs@[j]).name@ != system_data_name(),
        decreases segs@.len() - i,
    {
        if segs[i].name == name {
            proof {
                assert(first_system_data(segs@, i as int));
                assert forall|i2: int| first_system_data(segs@, i2) implies i2 == i by {
                    if i2 < i {
                        assert(segs@[i2].name@ != system_data_name());
                    } else if i2 > i {
                        assert(segs@[i as int].name@ != system_data_name());
                    }
                }
            }
            return match &segs[i].args {
                SegmentArgs::Angle(args) => {
                    if args.len() != 1 {
                        Err(SysDefError::ArgumentCount)
                    } else {
                        match &args[0] {
                            GenericArg::Type(TypeShape::Tuple(elems)) => match parse_sys_def_tuple(elems) {
                                Ok(layout) => Ok((i, layout)),
                                Err(e) => Err(e),
                            },
                            _ => Err(SysDefError::NotTuple),
                        }
                    }
                },
                _ => Err(SysDefError::Malformed),
            };
        }
        i = i + 1;
    }
    Err(SysDefError::Missing)
}

/// The decimal digits of `n`, most significant first.
pub open spec fn decimal(n: nat) -> Seq<char>
    decreases n,
{
    if n < 10 {
        seq![digit_char(n)]
    } else {
        decimal(n / 10).push(digit_char(n % 10))
    }
}

/// The character of a decimal digit.
pub open spec fn digit_char(d: nat) -> char {
    if d == 0 { '0' } else if d == 1 { '1' } else if d == 2 { '2' } else if d == 3 { '3' } else if d == 4 { '4' }
    else if d == 5 { '5' } else if d == 6 { '6' } else if d == 7 { '7' } else if d == 8 { '8' } else { '9' }
}

/// The name of the `counter`-th component binding: `comp_` and the counter in decimal.
pub open spec fn comp_ident_name(counter: nat) -> Seq<char> {
    seq!['c', 'o', 'm', 'p', '_'] + decimal(counter)
}

/// `ToString::to_string` on a `usize`: the standard library formats an integer in decimal,
/// without sign or padding.
#[verifier::external_body]
fn decimal_string(n: usize) -> (digits: String)
    ensures
        digits@ == decimal(n as nat),
{
    n.to_string()
}

/// The name of the `counter`-th component binding.
fn comp_ident(counter: usize) -> (name: String)
    ensures
        name@ == comp_ident_name(counter as nat),
{
    let prefix = "comp_";
    proof {
        reveal_strlit("comp_");
    }
    let mut name = String::from_str(prefix);
    let digits = decimal_string(counter);
    name.append(digits.as_str());
    proof {
        assert(prefix@ =~= seq!['c', 'o', 'm', 'p', '_']);
    }
    name
}

/// The layout of a system's data and the names of its component bindings, in order.
pub struct SystemDef {
    pub provide_ent_id: bool,
    pub mutability: Vec<bool>,
    pub comp_ident: Vec<String>,
}

impl SystemDef {
    /// Names the component bindings of a parsed system definition: `comp_0`, `comp_1`, and so
    /// on, one per component reference.
    pub fn new(layout: SysDefLayout) -> (def: SystemDef)
        ensures
            def.provide_ent_id == layout.provide_ent_id,
            def.mutability@ == layout.mutability@,
            def.comp_ident@.len() == layout.mutability@.len(),
            forall|j: int| 0 <= j < def.comp_ident@.len() ==> (#[trigger] def.comp_ident@[j])@ == comp_ident_name(j as nat),
    {
        let n = layout.mutability.len();
        let mut idents: Vec<String> = Vec::new();
        let mut j: usize = 0;
        while j < n
            invariant
                j <= n,
                idents@.len() == j,
                forall|k: int| 0 <= k < j ==> (#[trigger] idents@[k])@ == comp_ident_name(k as nat),
            decreases n - j,
        {
            idents.push(comp_ident(j));
            j = j + 1;
        }
        SystemDef { provide_ent_id: layout.provide_ent_id, mutability: layout.mutability, comp_ident: idents }
    }
}

} // verus!
