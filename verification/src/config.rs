use vstd::prelude::*;

verus! {

/// Number of nodes that a graph is built with where none is asked for.
pub const DEFAULT_NUMBER_OF_NODES: u32 = 10000;

/// The options that the program is started with.
#[derive(Debug)]
pub struct Config {
    geojson_export_path: Option<String>,
    coastlines_file: String,
    force_rebuild_graph: bool,
    number_of_nodes: u32,
    build_graph_on_startup: bool,
    max_test: bool,
}

/// The options as plain values.
pub struct ConfigValues {
    pub geojson_export_path: Option<Seq<char>>,
    pub coastlines_file: Seq<char>,
    pub force_rebuild_graph: bool,
    pub number_of_nodes: u32,
    pub build_graph_on_startup: bool,
    pub max_test: bool,
}

impl Config {
    /// The options as plain values.
    pub closed spec fn values(&self) -> ConfigValues {
        ConfigValues {
            geojson_export_path: match self.geojson_export_path {
                Some(path) => Some(path@),
                None => None,
            },
            coastlines_file: self.coastlines_file@,
            force_rebuild_graph: self.force_rebuild_graph,
            number_of_nodes: self.number_of_nodes,
            build_graph_on_startup: self.build_graph_on_startup,
            max_test: self.max_test,
        }
    }

    /// The options with the values given.
    pub fn new(
        geojson_export_path: Option<String>,
        coastlines_file: String,
        force_rebuild_graph: bool,
        number_of_nodes: u32,
        build_graph_on_startup: bool,
        max_test: bool,
    ) -> (c: Config)
        ensures
            c.values() == (ConfigValues {
                geojson_export_path: match geojson_export_path {
                    Some(path) => Some(path@),
                    None => None,
                },
                coastlines_file: coastlines_file@,
                force_rebuild_graph,
                number_of_nodes,
                build_graph_on_startup,
                max_test,
            }),
    {
        Config {
            geojson_export_path,
            coastlines_file,
            force_rebuild_graph,
            number_of_nodes,
            build_graph_on_startup,
            max_test,
        }
    }

    /// The options for `coastlines_file` where nothing else is asked for:
    /// 10000 nodes, no export, and every switch off.
    pub fn with_defaults(coastlines_file: String) -> (c: Config)
        ensures
            c.values() == (ConfigValues {
                geojson_export_path: None,
                coastlines_file: coastlines_file@,
                force_rebuild_graph: false,
                number_of_nodes: DEFAULT_NUMBER_OF_NODES,
                build_graph_on_startup: false,
                max_test: false,
            }),
    {
        Config::new(None, coastlines_file, false, DEFAULT_NUMBER_OF_NODES, false, false)
    }

    /// The file that the coastlines are read from.
    pub fn coastlines_file(&self) -> (r: &str)
        ensures
            r@ == self.values().coastlines_file,
    {
        self.coastlines_file.as_str()
    }

    /// Whether a graph is built even where a stored one is found.
    pub fn force_rebuild_graph(&self) -> (r: bool)
        ensures
            r == self.values().force_rebuild_graph,
    {
        self.force_rebuild_graph
    }

    /// The number of nodes that a graph is built with.
    pub fn number_of_nodes(&self) -> (r: u32)
        ensures
            r == self.values().number_of_nodes,
    {
        self.number_of_nodes
    }

    /// Whether the graph is built when the program starts.
    pub fn build_graph_on_startup(&self) -> (r: bool)
        ensures
            r == self.values().build_graph_on_startup,
    {
        self.build_graph_on_startup
    }

    /// Where the polygons are exported to, if they are.
    pub fn geojson_export_path(&self) -> (r: &Option<String>)
        ensures
            match *r {
                Some(path) => self.values().geojson_export_path == Some(path@),
                None => self.values().geojson_export_path is None,
            },
    {
        &self.geojson_export_path
    }

    /// Whether the program runs its largest test.
    pub fn max_test(&self) -> (r: bool)
        ensures
            r == self.values().max_test,
    {
        self.max_test
    }
}

} // verus!
