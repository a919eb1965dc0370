use vstd::prelude::*;

verus! {

/// The names, in order, of the fields in `fields` whose flag is `param`.
pub open spec fn names_where(fields: Seq<(Seq<char>, bool)>, param: bool) -> Seq<Seq<char>>
    decreases fields.len(),
{
    if fields.len() == 0 {
        Seq::empty()
    } else {
        let rest = names_where(fields.drop_last(), param);
        if fields.last().1 == param {
            rest.push(fields.last().0)
        } else {
            rest
        }
    }
}

/// The fields of a module, split into parameters and the rest.
pub struct Param {
    fields_param: Vec<String>,
    fields_other: Vec<String>,
}

impl Param {
    /// The names of the fields that hold parameters.
    pub closed spec fn params_view(&self) -> Seq<Seq<char>> {
        self.fields_param@.map_values(|s: String| s@)
    }

    /// The names of the other fields.
    pub closed spec fn others_view(&self) -> Seq<Seq<char>> {
        self.fields_other@.map_values(|s: String| s@)
    }

    /// Splits `fields`, each a name and whether its type is a parameter,
    /// keeping the order of each part.
    pub fn from_fields(fields: &Vec<(String, bool)>) -> (r: Self)
        ensures
            r.params_view() == names_where(fields@.map_values(|f: (String, bool)| (f.0@, f.1)), true),
            r.others_view() == names_where(fields@.map_values(|f: (String, bool)| (f.0@, f.1)), false),
    {
        let ghost fs = fields@.map_values(|f: (String, bool)| (f.0@, f.1));
        let mut r = Param { fields_param: Vec::new(), fields_other: Vec::new() };
        let mut i: usize = 0;
        assert(r.params_view() =~= names_where(fs.subrange(0, 0), true));
        assert(r.others_view() =~= names_where(fs.subrange(0, 0), false));
        while i < fields.len()
            invariant
                i <= fields@.len(),
                fs == fields@.map_values(|f: (String, bool)| (f.0@, f.1)),
                r.params_view() == names_where(fs.subrange(0, i as int), true),
                r.others_view() == names_where(fs.subrange(0, i as int), false),
            decreases fields@.len() - i,
        {
            let name = fields[i].0.clone();
            let ghost pre = r;
            assert(fs.subrange(0, i + 1).drop_last() =~= fs.subrange(0, i as int));
            if fields[i].1 {
                r.fields_param.push(name);
                assert(r.params_view() =~= pre.params_view().push(fs[i as int].0));
                assert(r.others_view() =~= pre.others_view());
            } else {
                r.fields_other.push(name);
                assert(r.others_view() =~= pre.others_view().push(fs[i as int].0));
                assert(r.params_view() =~= pre.params_view());
            }
            i = i + 1;
        }
        assert(fs.subrange(0, fields@.len() as int) =~= fs);
        r
    }

    /// The names of the fields that hold parameters.
    pub fn param_fields(&self) -> (r: &Vec<String>)
        ensures
            r@.map_values(|s: String| s@) == self.params_view(),
    {
        &self.fields_param
    }

    /// The names of the other fields.
    pub fn other_fields(&self) -> (r: &Vec<String>)
        ensures
            r@.map_values(|s: String| s@) == self.others_view(),
    {
        &self.fields_other
    }

    /// The number of fields that hold parameters.
    pub fn num_param_fields(&self) -> (r: usize)
        ensures
            r == self.params_view().len(),
    {
        self.fields_param.len()
    }
}

} // verus!
