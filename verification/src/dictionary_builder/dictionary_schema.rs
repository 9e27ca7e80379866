//! Built-in schemas of the dictionaries the builder knows: the column
//! layout of their lexicon CSV files.
use vstd::prelude::*;

use crate::error::{error_of, LinderaErrorKind};
use crate::text::{is_blank_str, str_eq, trims_to_empty};
use crate::LinderaResult;

verus! {

/// The role of a lexicon column.
#[derive(Debug, Clone, Copy, PartialEq, Eq, Structural)]
pub enum FieldType {
    /// The surface form (common column).
    Surface,
    /// The left context id (common column).
    LeftContextId,
    /// The right context id (common column).
    RightContextId,
    /// The word cost (common column).
    Cost,
    /// A dictionary-specific column.
    Custom,
}

/// One column of a lexicon CSV file.
#[derive(Debug, Clone)]
pub struct FieldDefinition {
    /// The column index.
    pub index: usize,
    /// The column name.
    pub name: String,
    /// The role of the column.
    pub field_type: FieldType,
    /// A human-readable description.
    pub description: Option<String>,
}

/// The column layout of a dictionary's lexicon.
#[derive(Debug, Clone)]
pub struct DictionarySchema {
    /// The dictionary's name.
    pub name: String,
    /// The dictionary's version.
    pub version: String,
    /// The columns.
    pub fields: Vec<FieldDefinition>,
}

/// Whether `f` is the column `index`, `name`, of role `ty`, described by
/// `desc`.
pub open spec fn field_is(f: FieldDefinition, index: int, name: Seq<char>, ty: FieldType, desc: Seq<char>) -> bool {
    &&& f.index == index
    &&& f.name@ == name
    &&& f.field_type == ty
    &&& f.description matches Some(d) && d@ == desc
}

/// A column definition.
fn field_def(index: usize, name: &str, field_type: FieldType, description: &str) -> (r: FieldDefinition)
    ensures
        field_is(r, index as int, name@, field_type, description@),
{
    FieldDefinition {
        index,
        name: name.to_owned(),
        field_type,
        description: Some(description.to_owned()),
    }
}

/// The columns of the IPADIC schema.
pub open spec fn ipadic_fields(fields: Seq<FieldDefinition>) -> bool {
    &&& fields.len() == 13
    &&& field_is(fields[0], 0, "surface"@, FieldType::Surface, "表層形"@)
    &&& field_is(fields[1], 1, "left_context_id"@, FieldType::LeftContextId, "左文脈ID"@)
    &&& field_is(fields[2], 2, "right_context_id"@, FieldType::RightContextId, "右文脈ID"@)
    &&& field_is(fields[3], 3, "cost"@, FieldType::Cost, "コスト"@)
    &&& field_is(fields[4], 4, "major_pos"@, FieldType::Custom, "品詞"@)
    &&& field_is(fields[5], 5, "middle_pos"@, FieldType::Custom, "品詞細分類1"@)
    &&& field_is(fields[6], 6, "small_pos"@, FieldType::Custom, "品詞細分類2"@)
    &&& field_is(fields[7], 7, "fine_pos"@, FieldType::Custom, "品詞細分類3"@)
    &&& field_is(fields[8], 8, "conjugation_type"@, FieldType::Custom, "活用形"@)
    &&& field_is(fields[9], 9, "conjugation_form"@, FieldType::Custom, "活用型"@)
    &&& field_is(fields[10], 10, "base_form"@, FieldType::Custom, "原形"@)
    &&& field_is(fields[11], 11, "reading"@, FieldType::Custom, "読み"@)
    &&& field_is(fields[12], 12, "pronunciation"@, FieldType::Custom, "発音"@)
}

/// The columns of the UniDic schema.
pub open spec fn unidic_fields(fields: Seq<FieldDefinition>) -> bool {
    &&& fields.len() == 21
    &&& field_is(fields[0], 0, "surface"@, FieldType::Surface, "表層形"@)
    &&& field_is(fields[1], 1, "left_context_id"@, FieldType::LeftContextId, "左文脈ID"@)
    &&& field_is(fields[2], 2, "right_context_id"@, FieldType::RightContextId, "右文脈ID"@)
    &&& field_is(fields[3], 3, "cost"@, FieldType::Cost, "コスト"@)
    &&& field_is(fields[4], 4, "major_pos"@, FieldType::Custom, "品詞大分類"@)
    &&& field_is(fields[5], 5, "middle_pos"@, FieldType::Custom, "品詞中分類"@)
    &&& field_is(fields[6], 6, "small_pos"@, FieldType::Custom, "品詞小分類"@)
    &&& field_is(fields[7], 7, "fine_pos"@, FieldType::Custom, "品詞細分類"@)
    &&& field_is(fields[8], 8, "conjugation_form"@, FieldType::Custom, "活用型"@)
    &&& field_is(fields[9], 9, "conjugation_type"@, FieldType::Custom, "活用形"@)
    &&& field_is(fields[10], 10, "lexeme_reading"@, FieldType::Custom, "語彙素読み"@)
    &&& field_is(fields[11], 11, "lexeme"@, FieldType::Custom, "語彙素（語彙素表記 + 語彙素細分類）"@)
    &&& field_is(fields[12], 12, "orthography_appearance"@, FieldType::Custom, "書字形出現形"@)
    &&& field_is(fields[13], 13, "pronunciation_appearance"@, FieldType::Custom, "発音形出現形"@)
    &&& field_is(fields[14], 14, "orthography_basic"@, FieldType::Custom, "書字形基本形"@)
    &&& field_is(fields[15], 15, "pronunciation_basic"@, FieldType::Custom, "発音形基本形"@)
    &&& field_is(fields[16], 16, "word_type"@, FieldType::Custom, "語種"@)
    &&& field_is(fields[17], 17, "prefix_form"@, FieldType::Custom, "語頭変化型"@)
    &&& field_is(fields[18], 18, "prefix_type"@, FieldType::Custom, "語頭変化形"@)
    &&& field_is(fields[19], 19, "suffix_form"@, FieldType::Custom, "語末変化型"@)
    &&& field_is(fields[20], 20, "suffix_type"@, FieldType::Custom, "語末変化形"@)
}

/// The columns of the CC-CEDICT schema.
pub open spec fn cc_cedict_fields(fields: Seq<FieldDefinition>) -> bool {
    &&& fields.len() == 12
    &&& field_is(fields[0], 0, "surface"@, FieldType::Surface, "表面形式"@)
    &&& field_is(fields[1], 1, "left_context_id"@, FieldType::LeftContextId, "左语境ID"@)
    &&& field_is(fields[2], 2, "right_context_id"@, FieldType::RightContextId, "右语境ID"@)
    &&& field_is(fields[3], 3, "cost"@, FieldType::Cost, "成本"@)
    &&& field_is(fields[4], 4, "major_pos"@, FieldType::Custom, "词类"@)
    &&& field_is(fields[5], 5, "middle_pos"@, FieldType::Custom, "词类1"@)
    &&& field_is(fields[6], 6, "small_pos"@, FieldType::Custom, "词类2"@)
    &&& field_is(fields[7], 7, "fine_pos"@, FieldType::Custom, "词类3"@)
    &&& field_is(fields[8], 8, "pinyin"@, FieldType::Custom, "併音"@)
    &&& field_is(fields[9], 9, "traditional"@, FieldType::Custom, "繁体字"@)
    &&& field_is(fields[10], 10, "simplified"@, FieldType::Custom, "簡体字"@)
    &&& field_is(fields[11], 11, "definition"@, FieldType::Custom, "定义"@)
}

/// The columns of the KO-DIC schema.
pub open spec fn ko_dic_fields(fields: Seq<FieldDefinition>) -> bool {
    &&& fields.len() == 12
    &&& field_is(fields[0], 0, "surface"@, FieldType::Surface, "표면"@)
    &&& field_is(fields[1], 1, "left_context_id"@, FieldType::LeftContextId, "왼쪽 문맥 ID"@)
    &&& field_is(fields[2], 2, "right_context_id"@, FieldType::RightContextId, "오른쪽 문맥 ID"@)
    &&& field_is(fields[3], 3, "cost"@, FieldType::Cost, "비용"@)
    &&& field_is(fields[4], 4, "pos_tag"@, FieldType::Custom, "품사 태그"@)
    &&& field_is(fields[5], 5, "meaning"@, FieldType::Custom, "의미 부류"@)
    &&& field_is(fields[6], 6, "presence_absence"@, FieldType::Custom, "종성 유무"@)
    &&& field_is(fields[7], 7, "reading"@, FieldType::Custom, "읽기"@)
    &&& field_is(fields[8], 8, "type"@, FieldType::Custom, "타입"@)
    &&& field_is(fields[9], 9, "first_pos"@, FieldType::Custom, "첫번째 품사"@)
    &&& field_is(fields[10], 10, "last_pos"@, FieldType::Custom, "마지막 품사"@)
    &&& field_is(fields[11], 11, "expression"@, FieldType::Custom, "표현"@)
}

impl DictionarySchema {
    /// The IPADIC schema (13 columns).
    pub fn ipadic() -> (r: Self)
        ensures
            r.name@ == "IPADIC"@,
            r.version@ == "2.7.0"@,
            ipadic_fields(r.fields@),
    {
        let mut fields: Vec<FieldDefinition> = Vec::new();
        fields.push(field_def(0, "surface", FieldType::Surface, "表層形"));
        fields.push(field_def(1, "left_context_id", FieldType::LeftContextId, "左文脈ID"));
        fields.push(field_def(2, "right_context_id", FieldType::RightContextId, "右文脈ID"));
        fields.push(field_def(3, "cost", FieldType::Cost, "コスト"));
        fields.push(field_def(4, "major_pos", FieldType::Custom, "品詞"));
        fields.push(field_def(5, "middle_pos", FieldType::Custom, "品詞細分類1"));
        fields.push(field_def(6, "small_pos", FieldType::Custom, "品詞細分類2"));
        fields.push(field_def(7, "fine_pos", FieldType::Custom, "品詞細分類3"));
        fields.push(field_def(8, "conjugation_type", FieldType::Custom, "活用形"));
        fields.push(field_def(9, "conjugation_form", FieldType::Custom, "活用型"));
        fields.push(field_def(10, "base_form", FieldType::Custom, "原形"));
        fields.push(field_def(11, "reading", FieldType::Custom, "読み"));
        fields.push(field_def(12, "pronunciation", FieldType::Custom, "発音"));
        DictionarySchema { name: "IPADIC".to_owned(), version: "2.7.0".to_owned(), fields }
    }

    /// The UniDic schema (21 columns).
    pub fn unidic() -> (r: Self)
        ensures
            r.name@ == "UniDic"@,
            r.version@ == "2.1.2"@,
            unidic_fields(r.fields@),
    {
        let mut fields: Vec<FieldDefinition> = Vec::new();
        fields.push(field_def(0, "surface", FieldType::Surface, "表層形"));
        fields.push(field_def(1, "left_context_id", FieldType::LeftContextId, "左文脈ID"));
        fields.push(field_def(2, "right_context_id", FieldType::RightContextId, "右文脈ID"));
        fields.push(field_def(3, "cost", FieldType::Cost, "コスト"));
        fields.push(field_def(4, "major_pos", FieldType::Custom, "品詞大分類"));
        fields.push(field_def(5, "middle_pos", FieldType::Custom, "品詞中分類"));
        fields.push(field_def(6, "small_pos", FieldType::Custom, "品詞小分類"));
        fields.push(field_def(7, "fine_pos", FieldType::Custom, "品詞細分類"));
        fields.push(field_def(8, "conjugation_form", FieldType::Custom, "活用型"));
        fields.push(field_def(9, "conjugation_type", FieldType::Custom, "活用形"));
        fields.push(field_def(10, "lexeme_reading", FieldType::Custom, "語彙素読み"));
        fields.push(field_def(11, "lexeme", FieldType::Custom, "語彙素（語彙素表記 + 語彙素細分類）"));
        fields.push(field_def(12, "orthography_appearance", FieldType::Custom, "書字形出現形"));
        fields.push(field_def(13, "pronunciation_appearance", FieldType::Custom, "発音形出現形"));
        fields.push(field_def(14, "orthography_basic", FieldType::Custom, "書字形基本形"));
        fields.push(field_def(15, "pronunciation_basic", FieldType::Custom, "発音形基本形"));
        fields.push(field_def(16, "word_type", FieldType::Custom, "語種"));
        fields.push(field_def(17, "prefix_form", FieldType::Custom, "語頭変化型"));
        fields.push(field_def(18, "prefix_type", FieldType::Custom, "語頭変化形"));
        fields.push(field_def(19, "suffix_form", FieldType::Custom, "語末変化型"));
        fields.push(field_def(20, "suffix_type", FieldType::Custom, "語末変化形"));
        DictionarySchema { name: "UniDic".to_owned(), version: "2.1.2".to_owned(), fields }
    }

    /// The CC-CEDICT schema (12 columns).
    pub fn cc_cedict() -> (r: Self)
        ensures
            r.name@ == "CC-CEDICT"@,
            r.version@ == "1.0.0"@,
            cc_cedict_fields(r.fields@),
    {
        let mut fields: Vec<FieldDefinition> = Vec::new();
        fields.push(field_def(0, "surface", FieldType::Surface, "表面形式"));
        fields.push(field_def(1, "left_context_id", FieldType::LeftContextId, "左语境ID"));
        fields.push(field_def(2, "right_context_id", FieldType::RightContextId, "右语境ID"));
        fields.push(field_def(3, "cost", FieldType::Cost, "成本"));
        fields.push(field_def(4, "major_pos", FieldType::Custom, "词类"));
        fields.push(field_def(5, "middle_pos", FieldType::Custom, "词类1"));
        fields.push(field_def(6, "small_pos", FieldType::Custom, "词类2"));
        fields.push(field_def(7, "fine_pos", FieldType::Custom, "词类3"));
        fields.push(field_def(8, "pinyin", FieldType::Custom, "併音"));
        fields.push(field_def(9, "traditional", FieldType::Custom, "繁体字"));
        fields.push(field_def(10, "simplified", FieldType::Custom, "簡体字"));
        fields.push(field_def(11, "definition", FieldType::Custom, "定义"));
        DictionarySchema { name: "CC-CEDICT".to_owned(), version: "1.0.0".to_owned(), fields }
    }

    /// The KO-DIC schema (12 columns).
    pub fn ko_dic() -> (r: Self)
        ensures
            r.name@ == "KO-DIC"@,
            r.version@ == "1.0.0"@,
            ko_dic_fields(r.fields@),
    {
        let mut fields: Vec<FieldDefinition> = Vec::new();
        fields.push(field_def(0, "surface", FieldType::Surface, "표면"));
        fields.push(field_def(1, "left_context_id", FieldType::LeftContextId, "왼쪽 문맥 ID"));
        fields.push(field_def(2, "right_context_id", FieldType::RightContextId, "오른쪽 문맥 ID"));
        fields.push(field_def(3, "cost", FieldType::Cost, "비용"));
        fields.push(field_def(4, "pos_tag", FieldType::Custom, "품사 태그"));
        fields.push(field_def(5, "meaning", FieldType::Custom, "의미 부류"));
        fields.push(field_def(6, "presence_absence", FieldType::Custom, "종성 유무"));
        fields.push(field_def(7, "reading", FieldType::Custom, "읽기"));
        fields.push(field_def(8, "type", FieldType::Custom, "타입"));
        fields.push(field_def(9, "first_pos", FieldType::Custom, "첫번째 품사"));
        fields.push(field_def(10, "last_pos", FieldType::Custom, "마지막 품사"));
        fields.push(field_def(11, "expression", FieldType::Custom, "표현"));
        DictionarySchema { name: "KO-DIC".to_owned(), version: "1.0.0".to_owned(), fields }
    }

}

/// Whether column `k` is the first of role `t`.
pub open spec fn is_first_of_type(fields: Seq<FieldDefinition>, t: FieldType, k: int) -> bool {
    &&& 0 <= k < fields.len()
    &&& fields[k].field_type == t
    &&& forall|j: int| 0 <= j < k ==> (#[trigger] fields[j]).field_type != t
}

/// The index of the first column of role `t`, if any.
pub open spec fn common_index_spec(fields: Seq<FieldDefinition>, t: FieldType) -> Option<usize> {
    if exists|k: int| is_first_of_type(fields, t, k) {
        Some(fields[choose|k: int| is_first_of_type(fields, t, k)].index)
    } else {
        None
    }
}

/// Whether column `k` is the first called `name`.
pub open spec fn is_first_named(fields: Seq<FieldDefinition>, name: Seq<char>, k: int) -> bool {
    &&& 0 <= k < fields.len()
    &&& fields[k].name@ == name
    &&& forall|j: int| 0 <= j < k ==> (#[trigger] fields[j]).name@ != name
}

/// The columns whose index is 4 or more (the dictionary-specific details),
/// in schema order.
pub open spec fn detail_fields_spec(fields: Seq<FieldDefinition>) -> Seq<FieldDefinition>
    decreases fields.len(),
{
    if fields.len() == 0 {
        Seq::empty()
    } else if fields.last().index >= 4 {
        detail_fields_spec(fields.drop_last()).push(fields.last())
    } else {
        detail_fields_spec(fields.drop_last())
    }
}

/// The columns that borrowed references point to.
pub open spec fn deref_fields(fields: Seq<&FieldDefinition>) -> Seq<FieldDefinition> {
    fields.map_values(|f: &FieldDefinition| *f)
}

/// Whether every common column that the schema declares is present and
/// non-blank in `row`.
pub open spec fn common_fields_ok(fields: Seq<FieldDefinition>, row: Seq<String>) -> bool {
    forall|t: FieldType|
        t != FieldType::Custom ==> match #[trigger] common_index_spec(fields, t) {
            Some(i) => i < row.len() && !is_blank_str(row[i as int]@),
            None => true,
        }
}

/// Sorts column references by column index.
///
/// Calls `slice::sort_by_key` with the column index as the key; the contract
/// claims that the result holds the same columns, in ascending index order.
#[verifier::external_body]
fn sort_by_index(fields: &mut Vec<&FieldDefinition>)
    ensures
        deref_fields(final(fields)@).to_multiset() == deref_fields(old(fields)@).to_multiset(),
        forall|i: int, j: int|
            0 <= i <= j < final(fields)@.len() ==> final(fields)@[i].index <= final(fields)@[j].index,
{
    fields.sort_by_key(|f| f.index);
}

impl DictionarySchema {
    /// The first column called `name`.
    pub fn get_field_by_name(&self, name: &str) -> (r: Option<&FieldDefinition>)
        ensures
            match r {
                Some(f) => exists|k: int| is_first_named(self.fields@, name@, k) && self.fields@[k] == *f,
                None => forall|k: int|
                    0 <= k < self.fields@.len() ==> (#[trigger] self.fields@[k]).name@ != name@,
            },
    {
        let mut i: usize = 0;
        while i < self.fields.len()
            invariant
                i <= self.fields@.len(),
                forall|j: int| 0 <= j < i ==> (#[trigger] self.fields@[j]).name@ != name@,
            decreases self.fields@.len() - i,
        {
            if str_eq(self.fields[i].name.as_str(), name) {
                assert(is_first_named(self.fields@, name@, i as int));
                return Some(&self.fields[i]);
            }
            i += 1;
        }
        None
    }

    /// The column index of the first column of role `field_type`.
    pub fn get_common_field_index(&self, field_type: &FieldType) -> (r: Option<usize>)
        ensures
            r == common_index_spec(self.fields@, *field_type),
    {
        let mut i: usize = 0;
        while i < self.fields.len()
            invariant
                i <= self.fields@.len(),
                forall|j: int| 0 <= j < i ==> (#[trigger] self.fields@[j]).field_type != *field_type,
            decreases self.fields@.len() - i,
        {
            if self.fields[i].field_type == *field_type {
                proof {
                    assert(is_first_of_type(self.fields@, *field_type, i as int));
                    let k = choose|k: int| is_first_of_type(self.fields@, *field_type, k);
                    assert(k == i) by {
                        if k < i {
                            assert(self.fields@[k].field_type != *field_type);
                        } else if k > i {
                            assert(self.fields@[i as int].field_type != *field_type);
                        }
                    }
                }
                return Some(self.fields[i].index);
            }
            i += 1;
        }
        assert(!exists|k: int| is_first_of_type(self.fields@, *field_type, k));
        None
    }

    /// The detail columns (index 4 and above), ordered by column index.
    pub fn get_detail_fields(&self) -> (r: Vec<&FieldDefinition>)
        ensures
            deref_fields(r@).to_multiset() == detail_fields_spec(self.fields@).to_multiset(),
            forall|i: int, j: int| 0 <= i <= j < r@.len() ==> r@[i].index <= r@[j].index,
    {
        let mut out: Vec<&FieldDefinition> = Vec::new();
        let mut i: usize = 0;
        while i < self.fields.len()
            invariant
                i <= self.fields@.len(),
                deref_fields(out@) == detail_fields_spec(self.fields@.take(i as int)),
            decreases self.fields@.len() - i,
        {
            let ghost before = out@;
            if self.fields[i].index >= 4 {
                out.push(&self.fields[i]);
                assert(deref_fields(out@) =~= deref_fields(before).push(self.fields@[i as int]));
            }
            i += 1;
            proof {
                let t = self.fields@.take(i as int);
                assert(t.drop_last() =~= self.fields@.take(i - 1));
                assert(t.last() == self.fields@[i - 1]);
            }
        }
        assert(self.fields@.take(self.fields@.len() as int) =~= self.fields@);
        sort_by_index(&mut out);
        out
    }

    /// Checks that every common column the schema declares is present and
    /// non-blank in `row`.
    pub fn validate_common_fields(&self, row: &[String]) -> (r: LinderaResult<()>)
        ensures
            r is Ok <==> common_fields_ok(self.fields@, row@),
            r matches Err(e) ==> e.kind == LinderaErrorKind::Content,
    {
        let common = [
            FieldType::Surface,
            FieldType::LeftContextId,
            FieldType::RightContextId,
            FieldType::Cost,
        ];
        let mut k: usize = 0;
        while k < 4
            invariant
                k <= 4,
                common@ == seq![
                    FieldType::Surface,
                    FieldType::LeftContextId,
                    FieldType::RightContextId,
                    FieldType::Cost,
                ],
                forall|j: int|
                    0 <= j < k ==> match #[trigger] common_index_spec(self.fields@, common@[j]) {
                        Some(i) => i < row@.len() && !is_blank_str(row@[i as int]@),
                        None => true,
                    },
            decreases 4 - k,
        {
            let t = common[k];
            match self.get_common_field_index(&t) {
                Some(index) => {
                    if index >= row.len() || trims_to_empty(row[index].as_str()) {
                        proof {
                            assert(!common_fields_ok(self.fields@, row@)) by {
                                assert(t != FieldType::Custom);
                            }
                        }
                        return Err(error_of(LinderaErrorKind::Content, "Common field is missing or empty"));
                    }
                },
                None => {},
            }
            k += 1;
        }
        proof {
            assert forall|t: FieldType| t != FieldType::Custom implies match #[trigger] common_index_spec(
                self.fields@,
                t,
            ) {
                Some(i) => i < row@.len() && !is_blank_str(row@[i as int]@),
                None => true,
            } by {
                if t == FieldType::Surface {
                    assert(common@[0] == t);
                } else if t == FieldType::LeftContextId {
                    assert(common@[1] == t);
                } else if t == FieldType::RightContextId {
                    assert(common@[2] == t);
                } else {
                    assert(common@[3] == t);
                }
            }
        }
        Ok(())
    }
}

} // verus!
