//! Where the models and their dictionaries are, and in which order they are loaded.
use crate::pipeline::config::FusionOcrConfig;
use crate::single::Single;
use std::path::PathBuf;
use vstd::prelude::*;
use vstd::string::*;

verus! {

/// The owned path of the standard library, which is carried through unread.
#[verifier::external_type_specification]
#[verifier::external_body]
pub struct ExPathBuf(PathBuf);

/// `PathBuf::clone`. Not proved: that the copy is the same path.
pub assume_specification[ <PathBuf as Clone>::clone ](path: &PathBuf) -> (r: PathBuf)
    ensures
        r == *path,
;

/// The files that the models are read from.
#[derive(Debug)]
pub struct FusionOcrModelPaths {
    pub layout_model: PathBuf,
    pub text_det_model: Option<PathBuf>,
    pub text_rec_model: Option<PathBuf>,
    pub text_rec_dict: Option<PathBuf>,
    pub formula_model: Option<PathBuf>,
    pub formula_tokens: Option<PathBuf>,
}

fn copied(path: &Option<PathBuf>) -> (r: Option<PathBuf>)
    ensures
        r == *path,
{
    match path {
        Some(p) => Some(p.clone()),
        None => None,
    }
}

impl Clone for FusionOcrModelPaths {
    fn clone(&self) -> (r: FusionOcrModelPaths)
        ensures
            r == *self,
    {
        FusionOcrModelPaths {
            layout_model: self.layout_model.clone(),
            text_det_model: copied(&self.text_det_model),
            text_rec_model: copied(&self.text_rec_model),
            text_rec_dict: copied(&self.text_rec_dict),
            formula_model: copied(&self.formula_model),
            formula_tokens: copied(&self.formula_tokens),
        }
    }
}

/// What `into` may make of a value.
pub open spec fn converts<P: Into<PathBuf>>(p: P, path: PathBuf) -> bool {
    call_ensures(<P as Into<PathBuf>>::into, (p,), path)
}

/// `into` makes only one path of the value.
pub open spec fn settled_path<P: Into<PathBuf>>(p: P) -> bool {
    forall|a: PathBuf, b: PathBuf| #[trigger]
        converts(p, a) && #[trigger] converts(p, b) ==> a == b
}

impl FusionOcrModelPaths {
    /// The paths with those of the models that find and read text lines.
    pub open spec fn text_set(self, det_model: PathBuf, rec_model: PathBuf, rec_dict: PathBuf) -> (
        FusionOcrModelPaths) {
        FusionOcrModelPaths {
            text_det_model: Some(det_model),
            text_rec_model: Some(rec_model),
            text_rec_dict: Some(rec_dict),
            ..self
        }
    }

    /// The paths with those of the model that reads formulas.
    pub open spec fn formula_set(self, model: PathBuf, tokens: PathBuf) -> FusionOcrModelPaths {
        FusionOcrModelPaths { formula_model: Some(model), formula_tokens: Some(tokens), ..self }
    }

    /// What adding the text models may give.
    pub open spec fn gains_text<D: Into<PathBuf>, R: Into<PathBuf>, C: Into<PathBuf>>(
        self,
        det_model: D,
        rec_model: R,
        rec_dict: C,
        r: FusionOcrModelPaths,
    ) -> bool {
        &&& converts(det_model, r.text_det_model->Some_0)
        &&& converts(rec_model, r.text_rec_model->Some_0)
        &&& converts(rec_dict, r.text_rec_dict->Some_0)
        &&& r == self.text_set(
            r.text_det_model->Some_0,
            r.text_rec_model->Some_0,
            r.text_rec_dict->Some_0,
        )
    }

    /// What adding the formula model may give.
    pub open spec fn gains_formula<M: Into<PathBuf>, T: Into<PathBuf>>(
        self,
        model: M,
        tokens: T,
        r: FusionOcrModelPaths,
    ) -> bool {
        &&& converts(model, r.formula_model->Some_0)
        &&& converts(tokens, r.formula_tokens->Some_0)
        &&& r == self.formula_set(r.formula_model->Some_0, r.formula_tokens->Some_0)
    }

    /// The layout model alone.
    pub fn new<P: Into<PathBuf>>(layout_model: P) -> (r: FusionOcrModelPaths)
        ensures
            converts(layout_model, r.layout_model),
            r.text_det_model is None,
            r.text_rec_model is None,
            r.text_rec_dict is None,
            r.formula_model is None,
            r.formula_tokens is None,
    {
        FusionOcrModelPaths {
            layout_model: layout_model.into(),
            text_det_model: None,
            text_rec_model: None,
            text_rec_dict: None,
            formula_model: None,
            formula_tokens: None,
        }
    }

    /// Adds the models that find and read text lines.
    pub fn with_text<D: Into<PathBuf>, R: Into<PathBuf>, C: Into<PathBuf>>(
        self,
        det_model: D,
        rec_model: R,
        rec_dict: C,
    ) -> (r: FusionOcrModelPaths)
        ensures
            self.gains_text(det_model, rec_model, rec_dict, r),
    {
        let (det, rec, dict) = (det_model.into(), rec_model.into(), rec_dict.into());
        FusionOcrModelPaths {
            layout_model: self.layout_model,
            text_det_model: Some(det),
            text_rec_model: Some(rec),
            text_rec_dict: Some(dict),
            formula_model: self.formula_model,
            formula_tokens: self.formula_tokens,
        }
    }

    /// Adds the model that reads formulas.
    pub fn with_formula<M: Into<PathBuf>, T: Into<PathBuf>>(
        self,
        formula_model: M,
        formula_tokens: T,
    ) -> (r: FusionOcrModelPaths)
        ensures
            self.gains_formula(formula_model, formula_tokens, r),
    {
        let (model, tokens) = (formula_model.into(), formula_tokens.into());
        FusionOcrModelPaths {
            layout_model: self.layout_model,
            text_det_model: self.text_det_model,
            text_rec_model: self.text_rec_model,
            text_rec_dict: self.text_rec_dict,
            formula_model: Some(model),
            formula_tokens: Some(tokens),
        }
    }
}

/// Setting the paths of the text models and those of the formula model commute.
pub proof fn lemma_paths_commute(
    paths: FusionOcrModelPaths,
    det_model: PathBuf,
    rec_model: PathBuf,
    rec_dict: PathBuf,
    formula_model: PathBuf,
    formula_tokens: PathBuf,
)
    ensures
        paths.text_set(det_model, rec_model, rec_dict).formula_set(formula_model, formula_tokens)
            == paths.formula_set(formula_model, formula_tokens).text_set(
            det_model,
            rec_model,
            rec_dict,
        ),
{
}

/// Adding the text models first or the formula model first gives the same paths, where each
/// value makes only one path.
pub proof fn lemma_builders_commute<
    D: Into<PathBuf>,
    R: Into<PathBuf>,
    C: Into<PathBuf>,
    M: Into<PathBuf>,
    T: Into<PathBuf>,
>(
    paths: FusionOcrModelPaths,
    det_model: D,
    rec_model: R,
    rec_dict: C,
    formula_model: M,
    formula_tokens: T,
    with_text: FusionOcrModelPaths,
    text_first: FusionOcrModelPaths,
    with_formula: FusionOcrModelPaths,
    formula_first: FusionOcrModelPaths,
)
    requires
        settled_path(det_model),
        settled_path(rec_model),
        settled_path(rec_dict),
        settled_path(formula_model),
        settled_path(formula_tokens),
        paths.gains_text(det_model, rec_model, rec_dict, with_text),
        with_text.gains_formula(formula_model, formula_tokens, text_first),
        paths.gains_formula(formula_model, formula_tokens, with_formula),
        with_formula.gains_text(det_model, rec_model, rec_dict, formula_first),
    ensures
        text_first == formula_first,
{
}

/// A model to load.
#[derive(Debug)]
pub enum ModelLoad {
    /// The model that finds regions, and the score that they need.
    Layout { model: PathBuf, threshold: Single },
    /// The model that finds text lines.
    Detector { model: PathBuf },
    /// The model that reads text lines, its dictionary, and how many it is fed at once.
    Recognizer { model: PathBuf, dict: PathBuf, batch_size: usize },
    /// The model that reads formulas, and its tokens.
    Formula { model: PathBuf, tokens: PathBuf },
}

/// The models to load, in order, and what is said after them where a path is missing.
#[derive(Debug)]
pub struct LoadPlan {
    pub loads: Vec<ModelLoad>,
    /// What is said of a path that is needed and not given.
    pub missing: Option<String>,
}

/// The models of a plan and what is said of the missing path.
pub open spec fn plan_view(plan: LoadPlan) -> (Seq<ModelLoad>, Option<Seq<char>>) {
    (
        plan.loads@,
        match plan.missing {
            Some(message) => Some(message@),
            None => None,
        },
    )
}

/// What is said of a path that is not given.
pub open spec fn missing_text(name: Seq<char>) -> Seq<char> {
    "missing required model path: "@ + name
}

/// The path, or what is said where it is not given.
pub open spec fn required(path: Option<PathBuf>, name: Seq<char>) -> Result<PathBuf, Seq<char>> {
    match path {
        Some(p) => Ok(p),
        None => Err(missing_text(name)),
    }
}

/// The model that finds text lines.
pub open spec fn detector_load(paths: FusionOcrModelPaths) -> Result<ModelLoad, Seq<char>> {
    match required(paths.text_det_model, "text_det_model"@) {
        Ok(model) => Ok(ModelLoad::Detector { model }),
        Err(message) => Err(message),
    }
}

/// The model that reads text lines.
pub open spec fn recognizer_load(paths: FusionOcrModelPaths, batch_size: usize) -> Result<
    ModelLoad,
    Seq<char>,
> {
    match (
        required(paths.text_rec_model, "text_rec_model"@),
        required(paths.text_rec_dict, "text_rec_dict"@),
    ) {
        (Ok(model), Ok(dict)) => Ok(ModelLoad::Recognizer { model, dict, batch_size }),
        (Err(message), _) => Err(message),
        (_, Err(message)) => Err(message),
    }
}

/// The model that reads formulas.
pub open spec fn formula_load(paths: FusionOcrModelPaths) -> Result<ModelLoad, Seq<char>> {
    match (
        required(paths.formula_model, "formula_model"@),
        required(paths.formula_tokens, "formula_tokens"@),
    ) {
        (Ok(model), Ok(tokens)) => Ok(ModelLoad::Formula { model, tokens }),
        (Err(message), _) => Err(message),
        (_, Err(message)) => Err(message),
    }
}

/// The plan with one more model where it is needed; nothing follows a missing path.
pub open spec fn then_load(
    plan: (Seq<ModelLoad>, Option<Seq<char>>),
    needed: bool,
    next: Result<ModelLoad, Seq<char>>,
) -> (Seq<ModelLoad>, Option<Seq<char>>) {
    if !needed || plan.1 is Some {
        plan
    } else {
        match next {
            Ok(load) => (plan.0.push(load), None),
            Err(message) => (plan.0, Some(message)),
        }
    }
}

/// The models to load: the layout model always, the others where a class needs them.
pub open spec fn load_plan(paths: FusionOcrModelPaths, config: FusionOcrConfig) -> (
    Seq<ModelLoad>,
    Option<Seq<char>>,
) {
    let layout = ModelLoad::Layout {
        model: paths.layout_model,
        threshold: config.layout_confidence_threshold,
    };
    let first = (seq![layout], None::<Seq<char>>);
    let second = then_load(first, config.classes.finds_lines(), detector_load(paths));
    let third = then_load(
        second,
        config.classes.reads_text(),
        recognizer_load(
            paths,
            if config.rec_batch_size < 1 {
                1
            } else {
                config.rec_batch_size
            },
        ),
    );
    then_load(third, config.classes.formula, formula_load(paths))
}

/// Every path that a class needs is given.
pub open spec fn complete(paths: FusionOcrModelPaths, config: FusionOcrConfig) -> bool {
    &&& config.classes.finds_lines() ==> paths.text_det_model is Some
    &&& config.classes.reads_text() ==> paths.text_rec_model is Some && paths.text_rec_dict is Some
    &&& config.classes.formula ==> paths.formula_model is Some && paths.formula_tokens is Some
}

/// A path is missing exactly where one that a class needs is not given. Where none is
/// missing, the models that the classes need are loaded, and no others.
pub proof fn lemma_load_plan(paths: FusionOcrModelPaths, config: FusionOcrConfig)
    ensures
        load_plan(paths, config).1 is None <==> complete(paths, config),
        complete(paths, config) ==> {
            let loads = load_plan(paths, config).0;
            &&& (exists|i: int| 0 <= i < loads.len() && #[trigger] loads[i] is Detector)
                <==> config.classes.finds_lines()
            &&& (exists|i: int| 0 <= i < loads.len() && #[trigger] loads[i] is Recognizer)
                <==> config.classes.reads_text()
            &&& (exists|i: int| 0 <= i < loads.len() && #[trigger] loads[i] is Formula)
                <==> config.classes.formula
        },
{
    if complete(paths, config) {
        let loads: Seq<ModelLoad> = load_plan(paths, config).0;
        let (d, r): (int, int) = (
            if config.classes.finds_lines() {
                1
            } else {
                0
            },
            if config.classes.reads_text() {
                1
            } else {
                0
            },
        );
        assert(config.classes.finds_lines() ==> loads[1] is Detector);
        assert(config.classes.reads_text() ==> loads[1 + d] is Recognizer);
        assert(config.classes.formula ==> loads[1 + d + r] is Formula);
    }
}

/// The path, or what is said where it is not given.
pub fn required_path(path: &Option<PathBuf>, name: &str) -> (r: Result<PathBuf, String>)
    ensures
        match required(*path, name@) {
            Ok(p) => r == Ok::<PathBuf, String>(p),
            Err(message) => r matches Err(m) && m@ == message,
        },
{
    match path {
        Some(p) => Ok(p.clone()),
        None => {
            let mut message: String = "missing required model path: ".to_owned();
            message.append(name);
            Err(message)
        },
    }
}

/// Plans which models to load.
pub fn plan_loads(paths: &FusionOcrModelPaths, config: &FusionOcrConfig) -> (r: LoadPlan)
    ensures
        plan_view(r) == load_plan(*paths, *config),
{
    let mut loads: Vec<ModelLoad> = Vec::new();
    loads.push(
        ModelLoad::Layout {
            model: paths.layout_model.clone(),
            threshold: config.layout_confidence_threshold,
        },
    );
    let size: usize = if config.rec_batch_size < 1 {
        1
    } else {
        config.rec_batch_size
    };
    let ghost layout: ModelLoad = loads@[0];
    let ghost first: (Seq<ModelLoad>, Option<Seq<char>>) = (seq![layout], None);
    let ghost second: (Seq<ModelLoad>, Option<Seq<char>>) = then_load(
        first,
        config.classes.finds_lines(),
        detector_load(*paths),
    );
    let ghost third: (Seq<ModelLoad>, Option<Seq<char>>) = then_load(
        second,
        config.classes.reads_text(),
        recognizer_load(*paths, size),
    );
    assert(loads@ =~= first.0);
    if config.classes.needs_det_model() {
        match required_path(&paths.text_det_model, "text_det_model") {
            Ok(model) => {
                loads.push(ModelLoad::Detector { model });
            },
            Err(message) => {
                return LoadPlan { loads, missing: Some(message) };
            },
        }
    }
    assert((loads@, None::<Seq<char>>) == second);
    if config.classes.needs_rec_model() {
        let model: PathBuf = match required_path(&paths.text_rec_model, "text_rec_model") {
            Ok(model) => model,
            Err(message) => return LoadPlan { loads, missing: Some(message) },
        };
        let dict: PathBuf = match required_path(&paths.text_rec_dict, "text_rec_dict") {
            Ok(dict) => dict,
            Err(message) => return LoadPlan { loads, missing: Some(message) },
        };
        loads.push(ModelLoad::Recognizer { model, dict, batch_size: size });
    }
    assert((loads@, None::<Seq<char>>) == third);
    if config.classes.formula {
        let model: PathBuf = match required_path(&paths.formula_model, "formula_model") {
            Ok(model) => model,
            Err(message) => return LoadPlan { loads, missing: Some(message) },
        };
        let tokens: PathBuf = match required_path(&paths.formula_tokens, "formula_tokens") {
            Ok(tokens) => tokens,
            Err(message) => return LoadPlan { loads, missing: Some(message) },
        };
        loads.push(ModelLoad::Formula { model, tokens });
    }
    LoadPlan { loads, missing: None }
}

} // verus!
