//! Loading a configuration from a file and the files that it includes.
//!
//! The library reads no file itself. A load is a conversation: the library
//! names the file that it needs next, the caller hands in what reading that
//! file gave, until the configuration is complete or the load has failed.

use std::path::Path;
use vstd::prelude::*;
use crate::config::{compare_text, nodes_view, Config};
use crate::entries::{lemma_merge_wf, lemma_remove, lemma_remove_wf};
use crate::error::{Failure, LoadError};
use crate::get::ConfigGet;
use crate::node::Node;
use crate::order::Order;
use crate::yaml::{config_view, parsed_config, yaml_documents};

verus! {

/// The formats that a configuration can be read from.
#[derive(Clone, Copy, Debug, PartialEq, Eq)]
pub enum Format {
    Yaml,
}

impl Format {
    /// The format that a file's extension names: YAML for `yml`, none for
    /// any other and for a file without extension.
    pub fn from_extension(extension: Option<&str>) -> (r: Option<Format>)
        ensures
            r == Format::named_by(
                match extension {
                    Some(e) => Some(e@),
                    None => None,
                },
            ),
    {
        match extension {
            Some(e) => match compare_text(e, "yml") {
                Order::Equal => Some(Format::Yaml),
                _ => None,
            },
            None => None,
        }
    }

    /// The format that an extension names.
    pub open spec fn named_by(extension: Option<Seq<char>>) -> Option<Format> {
        if extension == Some("yml"@) {
            Some(Format::Yaml)
        } else {
            None
        }
    }
}

/// `Path::extension`: the extension of the file that a path names, as text.
/// Nothing is claimed of it: what a path's components are differs from one
/// platform to the other.
#[verifier::external_body]
fn path_extension(file: &str) -> (extension: Option<String>) {
    let file: &Path = file.as_ref();
    file.extension().and_then(|e| e.to_str()).map(|e| e.to_owned())
}

/// `Path::parent`: a path without its last component, which is the
/// directory of the file that it names. Nothing is claimed of it.
#[verifier::external_body]
fn path_parent(file: &str) -> (parent: Option<String>) {
    let file: &Path = file.as_ref();
    file.parent().map(|p| p.to_string_lossy().into_owned())
}

/// `Path::join`: the path of `file` as seen from the directory `dir`; `file`
/// itself where it is absolute. Nothing is claimed of it.
#[verifier::external_body]
fn path_join(dir: &str, file: &str) -> (joined: String) {
    let dir: &Path = dir.as_ref();
    dir.join(file).to_string_lossy().into_owned()
}

/// The key under which a configuration names the files that it includes.
pub open spec fn includes_key() -> Node {
    Node::String("includes"@)
}

/// Every element of `items` is a string.
pub open spec fn all_strings(items: Seq<Node>) -> bool {
    forall|i: int| 0 <= i < items.len() ==> (#[trigger] items[i]) is String
}

/// The files that a configuration includes, in their order: the elements of
/// the sequence under `includes`, where all of them are strings.
pub open spec fn include_list(config: Node) -> Seq<Seq<char>> {
    let listed = config.get(includes_key());
    if listed is Array && all_strings(listed->Array_0) {
        Seq::new(listed->Array_0.len(), |i: int| listed->Array_0[i]->String_0)
    } else {
        Seq::empty()
    }
}

/// A configuration's own content: without the entry under `includes`, where
/// that is a sequence.
pub open spec fn own_content(config: Node) -> Node {
    if config.get(includes_key()) is Array {
        config.without(includes_key())
    } else {
        config
    }
}

/// The entry under `includes` never stays where it is a sequence: it is not
/// part of a configuration's own content.
pub proof fn lemma_own_content(config: Node)
    requires
        config.wf(),
        config.get(includes_key()) is Array,
    ensures
        own_content(config).wf(),
        !own_content(config).has(includes_key()),
        forall|key: Node|
            key != includes_key() ==> (#[trigger] own_content(config).get(key)) == config.get(key),
{
    lemma_remove(config->Hash_0, includes_key());
    lemma_remove_wf(config->Hash_0, includes_key());
}

/// The text of a string that may be absent.
pub open spec fn optional_text(s: Option<String>) -> Option<Seq<char>> {
    match s {
        Some(s) => Some(s@),
        None => None,
    }
}

/// The texts of a vector of strings.
pub open spec fn texts(items: Seq<String>) -> Seq<Seq<char>> {
    Seq::new(items.len(), |i: int| items[i]@)
}

impl Config {
    /// Takes the list of included files out of a configuration. Where the
    /// entry under `includes` is a sequence, it is removed, and its elements
    /// are the list if all of them are strings. Otherwise the configuration
    /// is left as it is and the list is empty.
    pub fn take_includes(&mut self) -> (includes: Vec<String>)
        requires
            old(self).wf(),
        ensures
            final(self)@ == own_content(old(self)@),
            final(self).wf(),
            texts(includes@) == include_list(old(self)@),
    {
        let listed = self.index_by_key("includes");
        if listed.is_array() {
            let ghost items = listed@->Array_0;
            let found: Option<Vec<String>> = listed.get();
            let includes = match found {
                Some(includes) => {
                    proof {
                        let a = listed->Array_0;
                        assert(nodes_view(a@) == items);
                        assert forall|i: int| 0 <= i < items.len() implies (#[trigger] items[i])
                            == Node::String(includes@[i]@) by {
                            assert(a@[i].reads_as(includes@[i]));
                        }
                        assert(texts(includes@) =~= include_list(self@));
                    }
                    includes
                },
                None => {
                    proof {
                        let a = listed->Array_0;
                        assert(nodes_view(a@) == items);
                        if all_strings(items) {
                            assert forall|i: int| 0 <= i < a@.len() implies <Config as ConfigGet<
                                String,
                            >>::present(#[trigger] &a@[i]) by {
                                assert(items[i] is String);
                            }
                        }
                    }
                    let none: Vec<String> = Vec::new();
                    assert(texts(none@) =~= include_list(self@));
                    none
                },
            };
            self.remove_key("includes");
            includes
        } else {
            let none: Vec<String> = Vec::new();
            assert(texts(none@) =~= include_list(self@));
            none
        }
    }
}

/// What reading a file gave.
#[derive(Debug, PartialEq, Eq)]
pub enum Source {
    /// The file's content.
    Text(String),
    /// There is no such file.
    Missing,
    /// The file could not be read. Holds the cause.
    Unreadable(String),
}

/// A file whose includes are being read.
struct Frame {
    /// The file's path, which the paths of its includes are relative to.
    path: String,
    /// What is loaded so far: the file's own content, laid over the
    /// includes that have been read.
    config: Config,
    /// The files that it includes, in their order.
    includes: Vec<String>,
    /// How many of them have been asked for.
    next: usize,
}

/// A load that waits for a file to be read.
pub struct Loader {
    /// The files whose includes are being read, the outermost first.
    frames: Vec<Frame>,
    /// The file that is needed next.
    path: String,
}

/// A load that waits for the path of an included file.
pub struct Inclusion {
    /// The files whose includes are being read, the outermost first.
    frames: Vec<Frame>,
    /// The file that includes.
    file: String,
    /// The included file, as the including file names it.
    target: String,
}

/// Where a load stands.
pub enum Load {
    /// A file is needed: read the file at [`Loader::path`] and hand the
    /// outcome to [`Loader::supply`].
    Need(Loader),
    /// The path of an included file is needed: see [`Inclusion::resolve`].
    Locate(Inclusion),
    /// The load is complete.
    Done(Config),
    /// The load has failed.
    Failed(LoadError),
}

/// The model of a file whose includes are being read.
pub struct FrameModel {
    pub path: Seq<char>,
    pub config: Node,
    pub includes: Seq<Seq<char>>,
    pub next: int,
}

/// The model of a [`Loader`].
pub struct LoaderModel {
    pub frames: Seq<FrameModel>,
    pub path: Seq<char>,
}

/// The model of an [`Inclusion`].
pub struct InclusionModel {
    pub frames: Seq<FrameModel>,
    pub file: Seq<char>,
    pub target: Seq<char>,
}

/// The model of a [`Load`].
pub enum LoadModel {
    Need(LoaderModel),
    Locate(InclusionModel),
    Done(Node),
    Failed(Failure),
}

/// Steps on from the innermost file. If it has an include left, that one is
/// next. If not, the file is finished: the outermost file's configuration
/// is the result, any other is laid under what its including file has so
/// far, and that file goes on.
pub open spec fn settle(frames: Seq<FrameModel>) -> LoadModel
    decreases frames.len(),
{
    if frames.len() == 0 {
        LoadModel::Done(Node::Null)
    } else {
        let top = frames.last();
        if 0 <= top.next < top.includes.len() {
            LoadModel::Locate(
                InclusionModel {
                    frames: frames.drop_last().push(FrameModel { next: top.next + 1, ..top }),
                    file: top.path,
                    target: top.includes[top.next],
                },
            )
        } else if frames.len() == 1 {
            LoadModel::Done(top.config)
        } else {
            let outer = frames[frames.len() - 2];
            settle(
                frames.drop_last().drop_last().push(
                    FrameModel { config: top.config.merge(outer.config), ..outer },
                ),
            )
        }
    }
}

/// Asks for the file at `path`, unless its extension names no format.
pub open spec fn request(
    frames: Seq<FrameModel>,
    path: Seq<char>,
    extension: Option<Seq<char>>,
) -> LoadModel {
    if Format::named_by(extension) is Some {
        LoadModel::Need(LoaderModel { frames, path })
    } else {
        LoadModel::Failed(Failure::UnsupportedFileType(path))
    }
}

/// The frames once `config` has been read from the file that was needed:
/// the file is the innermost now, with its own content and its includes
/// still to be read.
pub open spec fn entered(loader: LoaderModel, config: Node) -> Seq<FrameModel> {
    loader.frames.push(
        FrameModel {
            path: loader.path,
            config: own_content(config),
            includes: include_list(config),
            next: 0,
        },
    )
}

/// Where a load stands once reading the needed file gave `source`.
///
/// A missing file is no error where it is the file that the load began
/// with: the configuration is then empty. A missing include fails the load,
/// and so does a file that cannot be read or parsed. A text is parsed as
/// YAML, and the load steps on from there.
pub open spec fn supplied(loader: LoaderModel, source: Source) -> LoadModel {
    match source {
        Source::Missing => if loader.frames.len() == 0 {
            LoadModel::Done(Node::Null)
        } else {
            LoadModel::Failed(Failure::MissingInclude(loader.path))
        },
        Source::Unreadable(cause) => LoadModel::Failed(Failure::Unreadable(cause@)),
        Source::Text(text) => match parsed_config(yaml_documents(text@)) {
            Err(failure) => LoadModel::Failed(failure),
            Ok(config) => settle(entered(loader, config)),
        },
    }
}

impl Frame {
    spec fn model(self) -> FrameModel {
        FrameModel {
            path: self.path@,
            config: self.config@,
            includes: texts(self.includes@),
            next: self.next as int,
        }
    }

    /// The configuration is well formed, and no more includes are asked
    /// for than there are.
    spec fn wf(self) -> bool {
        self.config.wf() && self.next <= self.includes@.len()
    }
}

spec fn frame_models(frames: Seq<Frame>) -> Seq<FrameModel> {
    Seq::new(frames.len(), |i: int| frames[i].model())
}

spec fn frames_wf(frames: Seq<Frame>) -> bool {
    forall|i: int| 0 <= i < frames.len() ==> (#[trigger] frames[i]).wf()
}

impl View for Loader {
    type V = LoaderModel;

    closed spec fn view(&self) -> LoaderModel {
        LoaderModel { frames: frame_models(self.frames@), path: self.path@ }
    }
}

impl View for Inclusion {
    type V = InclusionModel;

    closed spec fn view(&self) -> InclusionModel {
        InclusionModel {
            frames: frame_models(self.frames@),
            file: self.file@,
            target: self.target@,
        }
    }
}

impl View for Load {
    type V = LoadModel;

    open spec fn view(&self) -> LoadModel {
        match self {
            Load::Need(loader) => LoadModel::Need(loader@),
            Load::Locate(inclusion) => LoadModel::Locate(inclusion@),
            Load::Done(config) => LoadModel::Done(config@),
            Load::Failed(error) => LoadModel::Failed(error@),
        }
    }
}

impl Load {
    /// A configuration that a load ends with is well formed.
    pub open spec fn wf(self) -> bool {
        self matches Load::Done(config) ==> config.wf()
    }
}

/// Steps on from the innermost file; see [`settle`].
fn settle_frames(frames: Vec<Frame>) -> (r: Load)
    requires
        frames@.len() > 0,
        frames_wf(frames@),
    ensures
        r@ == settle(frame_models(frames@)),
        r.wf(),
        r is Locate || r is Done,
{
    let mut stack = frames;
    loop
        invariant
            stack@.len() > 0,
            frames_wf(stack@),
            settle(frame_models(stack@)) == settle(frame_models(frames@)),
        decreases stack@.len(),
    {
        let ghost before = frame_models(stack@);
        let mut top = stack.pop().unwrap();
        assert(top.wf());
        assert(top.model() == before.last());
        assert(frame_models(stack@) =~= before.drop_last());
        if top.next < top.includes.len() {
            let file = top.path.clone();
            let target = top.includes[top.next].clone();
            assert(target@ == before.last().includes[before.last().next]);
            top.next = top.next + 1;
            stack.push(top);
            assert(frame_models(stack@) =~= before.drop_last().push(
                FrameModel { next: before.last().next + 1, ..before.last() },
            ));
            return Load::Locate(Inclusion { frames: stack, file, target });
        }
        match stack.pop() {
            None => {
                assert(before.len() == 1);
                return Load::Done(top.config);
            },
            Some(outer) => {
                assert(outer.wf());
                assert(outer.model() == before[before.len() - 2]);
                proof {
                    lemma_merge_wf(top.config@, outer.config@);
                }
                let Frame { path, config, includes, next } = outer;
                let merged = top.config.merge(config);
                stack.push(Frame { path, config: merged, includes, next });
                assert(frame_models(stack@) =~= before.drop_last().drop_last().push(
                    FrameModel {
                        config: before.last().config.merge(before[before.len() - 2].config),
                        ..before[before.len() - 2]
                    },
                ));
            },
        }
    }
}

/// Asks for the file at `path`, unless its extension names no format.
fn request_file(frames: Vec<Frame>, path: String, extension: Option<String>) -> (r: Load)
    requires
        frames_wf(frames@),
    ensures
        r@ == request(frame_models(frames@), path@, optional_text(extension)),
        r.wf(),
{
    let format = match &extension {
        Some(e) => Format::from_extension(Some(e.as_str())),
        None => Format::from_extension(None),
    };
    match format {
        Some(Format::Yaml) => Load::Need(Loader { frames, path }),
        None => Load::Failed(LoadError::UnsupportedFileType(path)),
    }
}

impl Loader {
    #[verifier::type_invariant]
    spec fn inv(self) -> bool {
        frames_wf(self.frames@)
    }

    /// Begins a load with the file at `path`, whose extension is
    /// `extension`: asks for the file, unless the extension names no
    /// format.
    pub fn begin(path: String, extension: Option<String>) -> (r: Load)
        ensures
            r@ == request(Seq::empty(), path@, optional_text(extension)),
    {
        let frames: Vec<Frame> = Vec::new();
        assert(frame_models(frames@) =~= Seq::empty());
        request_file(frames, path, extension)
    }

    /// The file that is needed next.
    pub fn path(&self) -> (path: &str)
        ensures
            path@ == self@.path,
    {
        self.path.as_str()
    }

    /// Goes on with a load, given what reading the needed file gave.
    ///
    /// A missing file is no error where it is the file that the load began
    /// with: the configuration is then empty. A missing include fails the
    /// load, and so does a file that cannot be read or parsed. A text is
    /// parsed as YAML and its list of includes is taken out of it; then the
    /// load steps on to the next include, or ends. Each included file is
    /// laid under what the file that includes it has so far.
    pub fn supply(self, source: Source) -> (r: Load)
        ensures
            r@ == supplied(self@, source),
            r.wf(),
            !(r is Need),
    {
        proof {
            use_type_invariant(&self);
        }
        let Loader { frames, path } = self;
        match source {
            Source::Missing => {
                assert(self@.frames.len() == frames@.len());
                if frames.len() == 0 {
                    Load::Done(Config::new())
                } else {
                    Load::Failed(LoadError::MissingInclude(path))
                }
            },
            Source::Unreadable(cause) => Load::Failed(LoadError::Unreadable(cause)),
            Source::Text(text) => match Config::from_yaml_str(text.as_str()) {
                Err(error) => Load::Failed(error),
                Ok(config) => {
                    let ghost taken = config@;
                    let mut frames = frames;
                    let mut config = config;
                    let includes = config.take_includes();
                    frames.push(Frame { path, config, includes, next: 0 });
                    assert(frame_models(frames@) =~= entered(self@, taken));
                    settle_frames(frames)
                },
            },
        }
    }
}

impl Inclusion {
    #[verifier::type_invariant]
    spec fn inv(self) -> bool {
        frames_wf(self.frames@)
    }

    /// The file that includes.
    pub fn file(&self) -> (file: &str)
        ensures
            file@ == self@.file,
    {
        self.file.as_str()
    }

    /// The included file, as the including file names it.
    pub fn target(&self) -> (target: &str)
        ensures
            target@ == self@.target,
    {
        self.target.as_str()
    }

    /// Goes on with a load, given the included file's path and the
    /// extension of that path: asks for the file, unless the extension
    /// names no format.
    pub fn request(self, path: String, extension: Option<String>) -> (r: Load)
        ensures
            r@ == request(self@.frames, path@, optional_text(extension)),
            r.wf(),
            r is Need || r is Failed,
    {
        proof {
            use_type_invariant(&self);
        }
        let Inclusion { frames, file, target } = self;
        request_file(frames, path, extension)
    }

    /// Goes on with a load: finds the included file as seen from the
    /// directory of the file that includes it, and asks for it, unless its
    /// extension names no format.
    pub fn resolve(self) -> (r: Load)
        ensures
            exists|path: Seq<char>, extension: Option<Seq<char>>|
                r@ == request(self@.frames, path, extension),
            r.wf(),
            r is Need || r is Failed,
    {
        let dir = match path_parent(self.file()) {
            Some(dir) => dir,
            None => ".".to_owned(),
        };
        let path = path_join(dir.as_str(), self.target());
        let extension = path_extension(path.as_str());
        let ghost found = optional_text(extension);
        let r = self.request(path, extension);
        assert(r@ == request(self@.frames, path@, found));
        r
    }
}

impl Config {
    /// Begins to load the configuration in the file `filename`: determines
    /// the file's type, and asks for the file.
    pub fn from_file(filename: &str) -> (r: Load)
        ensures
            exists|extension: Option<Seq<char>>|
                r@ == request(Seq::empty(), filename@, extension),
            r is Need || r is Failed,
    {
        let extension = path_extension(filename);
        let ghost found = optional_text(extension);
        let r = Loader::begin(filename.to_owned(), extension);
        assert(r@ == request(Seq::empty(), filename@, found));
        r
    }

    /// Begins to load the configuration in the file `filename` as YAML,
    /// whatever the file's extension is.
    pub fn from_yaml_file(filename: &str) -> (r: Load)
        ensures
            r@ == LoadModel::Need(LoaderModel { frames: Seq::empty(), path: filename@ }),
    {
        let frames: Vec<Frame> = Vec::new();
        assert(frame_models(frames@) =~= Seq::empty());
        Load::Need(Loader { frames, path: filename.to_owned() })
    }

    /// The configuration of a single YAML file, given what reading it gave.
    /// A missing file gives the empty configuration, and so does an empty
    /// one. Includes are not looked for.
    pub fn from_yaml_file_or_empty(source: Source) -> (r: Result<Config, LoadError>)
        ensures
            r.is_ok() ==> r.unwrap().wf(),
            source is Missing ==> config_view(r) == Ok::<Node, Failure>(Node::Null),
            source matches Source::Unreadable(cause) ==> config_view(r) == Err::<Node, Failure>(
                Failure::Unreadable(cause@),
            ),
            source matches Source::Text(text) ==> config_view(r) == parsed_config(
                yaml_documents(text@),
            ),
    {
        match source {
            Source::Text(text) => Config::from_yaml_str(text.as_str()),
            Source::Missing => Ok(Config::new()),
            Source::Unreadable(cause) => Err(LoadError::Unreadable(cause)),
        }
    }
}

} // verus!
