//! Loading a lowered program: the label table and the immutable program data.
use vstd::prelude::*;

use crate::error::Error;
use crate::intermediate_repr::{ir_view, DataSegment, IntermediateLine, IrLine};
use crate::name_table::NameTable;

verus! {

/// The name an instruction defines, if it is a label or a function entry.
pub open spec fn line_label(l: IrLine) -> Option<Seq<char>> {
    match l {
        IrLine::Label(n) => Some(n),
        IrLine::FunDeclaration(n, _) => Some(n),
        _ => None,
    }
}

/// Each defined name with the index of the instruction that defines it (the
/// last one, should a name be defined twice).
pub open spec fn label_map(ir: Seq<IrLine>) -> Map<Seq<char>, usize>
    decreases ir.len(),
{
    if ir.len() == 0 {
        Map::empty()
    } else {
        let front = label_map(ir.drop_last());
        match line_label(ir.last()) {
            Some(n) => front.insert(n, (ir.len() - 1) as usize),
            None => front,
        }
    }
}

/// The instruction at `j` defines a name that an earlier instruction defined.
pub open spec fn redefined_at(ir: Seq<IrLine>, j: int) -> bool {
    &&& 0 <= j < ir.len()
    &&& line_label(ir[j]) is Some
    &&& exists|i: int| 0 <= i < j && line_label(ir[i]) == line_label(ir[j])
}

/// No name is defined twice.
pub open spec fn labels_distinct(ir: Seq<IrLine>) -> bool {
    forall|j: int| !redefined_at(ir, j)
}

/// The label table holds exactly the defined names, each with the index of the
/// instruction that defines it.
pub proof fn lemma_label_map(ir: Seq<IrLine>)
    requires
        ir.len() <= usize::MAX,
    ensures
        forall|n: Seq<char>| #[trigger]
            label_map(ir).contains_key(n) <==> exists|i: int|
                0 <= i < ir.len() && line_label(ir[i]) == Some(n),
        forall|n: Seq<char>| #[trigger]
            label_map(ir).contains_key(n) ==> label_map(ir)[n] < ir.len() && line_label(
                ir[label_map(ir)[n] as int],
            ) == Some(n),
    decreases ir.len(),
{
    if ir.len() > 0 {
        let t = ir.drop_last();
        lemma_label_map(t);
        assert forall|n: Seq<char>| #[trigger]
            label_map(ir).contains_key(n) <==> exists|i: int|
                0 <= i < ir.len() && line_label(ir[i]) == Some(n) by {
            if exists|i: int| 0 <= i < ir.len() && line_label(ir[i]) == Some(n) {
                let i = choose|i: int| 0 <= i < ir.len() && line_label(ir[i]) == Some(n);
                if i < t.len() {
                    assert(t[i] == ir[i]);
                }
            }
            if label_map(t).contains_key(n) {
                let i = choose|i: int| 0 <= i < t.len() && line_label(t[i]) == Some(n);
                assert(t[i] == ir[i]);
            }
        }
        assert forall|n: Seq<char>| #[trigger] label_map(ir).contains_key(n) implies label_map(
            ir,
        )[n] < ir.len() && line_label(ir[label_map(ir)[n] as int]) == Some(n) by {
            assert(ir.last() == ir[ir.len() - 1]);
            if line_label(ir.last()) == Some(n) {
                assert(label_map(ir)[n] == ir.len() - 1);
            } else {
                assert(label_map(ir) == label_map(t) || label_map(ir) == label_map(t).insert(
                    line_label(ir.last())->0,
                    (ir.len() - 1) as usize,
                ));
                assert(label_map(t).contains_key(n));
                assert(label_map(ir)[n] == label_map(t)[n]);
                assert(t[label_map(t)[n] as int] == ir[label_map(t)[n] as int]);
            }
        }
    }
}

/// The label table of a program in which two instructions define one name
/// cannot be built: a name may be defined once only.
pub proof fn lemma_duplicate_label_rejected(ir: Seq<IrLine>, i: int, j: int)
    requires
        0 <= i < j < ir.len(),
        line_label(ir[i]) is Some,
        line_label(ir[i]) == line_label(ir[j]),
    ensures
        !labels_distinct(ir),
{
    assert(redefined_at(ir, j));
}

/// Iterates over a program and returns the mapping from labels to the line
/// index the label points to; fails on the first name defined a second time.
pub fn build_label_table(program: &Vec<IntermediateLine>) -> (r: Result<NameTable, Error>)
    ensures
        r is Ok <==> labels_distinct(ir_view(program@)),
        r matches Ok(t) ==> t.wf() && t@ == label_map(ir_view(program@)),
        r matches Err(e) ==> exists|j: int|
            redefined_at(ir_view(program@), j) && (forall|k: int|
                0 <= k < j ==> !redefined_at(ir_view(program@), k)) && (e matches Error::LabelRedefinition(
                n,
            ) && line_label(ir_view(program@)[j]) == Some(n@)),
{
    let ghost ir = ir_view(program@);
    let mut map = NameTable::new();
    let mut i: usize = 0;
    while i < program.len()
        invariant
            ir == ir_view(program@),
            i <= program@.len(),
            map.wf(),
            map@ == label_map(ir.subrange(0, i as int)),
            forall|k: int| 0 <= k < i ==> !redefined_at(ir, k),
        decreases program@.len() - i,
    {
        let ghost prefix = ir.subrange(0, i as int);
        proof {
            lemma_label_map(prefix);
            assert(ir.subrange(0, i + 1).drop_last() =~= prefix);
            assert(ir[i as int] == program@[i as int]@);
        }
        // fun declarations are essentially labels, so add them to the map as well
        // NOTE this means there can be name conflicts between fun names and label names
        let name_opt: Option<&String> = match &program[i] {
            IntermediateLine::Label(name) => Some(name),
            IntermediateLine::FunDeclaration(name, _) => Some(name),
            _ => None,
        };
        match name_opt {
            Some(name) => {
                if map.contains(name) {
                    proof {
                        let k = choose|k: int|
                            0 <= k < prefix.len() && line_label(prefix[k]) == Some(name@);
                        assert(prefix[k] == ir[k]);
                        assert(redefined_at(ir, i as int));
                    }
                    return Err(Error::LabelRedefinition(name.clone()));
                }
                map.insert(name.clone(), i);
                proof {
                    assert forall|k: int| 0 <= k < i + 1 implies !redefined_at(ir, k) by {
                        if k == i && redefined_at(ir, k) {
                            let a = choose|a: int| 0 <= a < k && line_label(ir[a]) == line_label(ir[k]);
                            assert(prefix[a] == ir[a]);
                        }
                    }
                }
            },
            None => {},
        }
        i = i + 1;
    }
    proof {
        assert(ir.subrange(0, program@.len() as int) =~= ir);
    }
    Ok(map)
}

/// The immutable program data that is run by the interpreter
pub struct Program {
    ir: Vec<IntermediateLine>,
    data: Vec<u8>,
    /// Maps labels to the line that they point to in code
    label_table: NameTable,
    /// Maps data labels to the byte in data they point to
    data_label_table: NameTable,
}

impl Program {
    /// The program's instructions.
    pub closed spec fn ir(&self) -> Seq<IrLine> {
        ir_view(self.ir@)
    }

    /// The initial data bytes.
    pub closed spec fn data(&self) -> Seq<u8> {
        self.data@
    }

    /// Each label and function name with the index of its instruction.
    pub closed spec fn labels(&self) -> Map<Seq<char>, usize> {
        self.label_table@
    }

    /// Each data label with its offset into the data.
    pub closed spec fn data_labels(&self) -> Map<Seq<char>, usize> {
        self.data_label_table@
    }

    /// The label table is the one the instructions define, and no name is defined twice.
    pub closed spec fn wf(&self) -> bool {
        &&& self.label_table.wf()
        &&& self.data_label_table.wf()
        &&& self.label_table@ == label_map(self.ir())
        &&& labels_distinct(self.ir())
    }

    /// Builds the program, with its label table; fails with a redefinition
    /// error, before anything runs, when a name is defined twice.
    pub fn try_new(ir: Vec<IntermediateLine>, data_segment: DataSegment) -> (r: Result<
        Program,
        Error,
    >)
        requires
            data_segment.labels.wf(),
        ensures
            r is Ok <==> labels_distinct(ir_view(ir@)),
            r matches Ok(p) ==> p.wf() && p.ir() == ir_view(ir@) && p.data()
                == data_segment.bytes@ && p.data_labels() == data_segment.labels@ && p.labels()
                == label_map(ir_view(ir@)),
            r matches Err(e) ==> exists|j: int|
                redefined_at(ir_view(ir@), j) && (forall|k: int|
                    0 <= k < j ==> !redefined_at(ir_view(ir@), k)) && (e matches Error::LabelRedefinition(
                    n,
                ) && line_label(ir_view(ir@)[j]) == Some(n@)),
    {
        let label_table = match build_label_table(&ir) {
            Ok(t) => t,
            Err(e) => {
                return Err(e);
            },
        };
        Ok(
            Program {
                ir,
                data: data_segment.bytes,
                label_table,
                data_label_table: data_segment.labels,
            },
        )
    }

    /// What a well-formed program's tables are.
    pub proof fn lemma_wf(&self)
        requires
            self.wf(),
        ensures
            self.labels() == label_map(self.ir()),
            labels_distinct(self.ir()),
    {
    }

    /// The number of instructions.
    pub fn len(&self) -> (r: usize)
        ensures
            r == self.ir().len(),
    {
        self.ir.len()
    }

    /// The instruction at `i`.
    pub fn line(&self, i: usize) -> (r: &IntermediateLine)
        requires
            i < self.ir().len(),
        ensures
            r@ == self.ir()[i as int],
    {
        &self.ir[i]
    }

    /// The initial data bytes.
    pub fn data_bytes(&self) -> (r: &Vec<u8>)
        ensures
            r@ == self.data(),
    {
        &self.data
    }

    /// The table of labels and function names.
    pub fn label_table(&self) -> (r: &NameTable)
        requires
            self.wf(),
        ensures
            r.wf(),
            r@ == self.labels(),
    {
        &self.label_table
    }

    /// The table of data labels.
    pub fn data_label_table(&self) -> (r: &NameTable)
        requires
            self.wf(),
        ensures
            r.wf(),
            r@ == self.data_labels(),
    {
        &self.data_label_table
    }
}

} // verus!
