use chicken_curry::graph::{computation_graph_string, topological_order};

// Node 0 is the result; each list names the nodes a node was computed from.

#[test]
fn get_topology_returns_root_before_parent_dependencies() {
    // result = (2.0 * tensor.sqrt()).sum()
    let parents = vec![vec![1], vec![2], vec![3], vec![]];

    let topology = topological_order(&parents, 0);

    assert_eq!(topology.len(), 4);
    assert_eq!(topology, vec![0, 1, 2, 3]);
}

#[test]
fn get_topology_places_consumers_before_dependencies() {
    // scaled_left = 2.0 * left; result = scaled_left + right
    let parents = vec![vec![1, 2], vec![3], vec![], vec![]];

    let topology = topological_order(&parents, 0);

    assert_eq!(topology.len(), 4);
    assert_eq!(topology, vec![0, 2, 1, 3]);
}

#[test]
fn get_topology_visits_shared_dependencies_once() {
    // doubled = 2.0 * tensor; result = doubled + doubled
    let parents = vec![vec![1, 1], vec![2], vec![]];

    let topology = topological_order(&parents, 0);

    assert_eq!(topology.len(), 3);
    assert_eq!(topology, vec![0, 1, 2]);
}

#[test]
fn topological_order_skips_nodes_the_root_does_not_depend_on() {
    let parents = vec![vec![], vec![0], vec![1], vec![0]];

    assert_eq!(topological_order(&parents, 2), vec![2, 1, 0]);
    assert_eq!(topological_order(&parents, 0), vec![0]);
}

#[test]
fn topological_order_lists_diamond_dependencies_once() {
    // 0 uses 1 and 2; both use 3.
    let parents = vec![vec![1, 2], vec![3], vec![3], vec![]];

    assert_eq!(topological_order(&parents, 0), vec![0, 2, 1, 3]);
}

#[test]
fn topological_order_terminates_on_cycles() {
    let parents = vec![vec![1], vec![0]];

    assert_eq!(topological_order(&parents, 0), vec![0, 1]);
}

fn labels(names: &[&str]) -> Vec<String> {
    names.iter().map(|name| name.to_string()).collect()
}

#[test]
fn computation_graph_string_describes_operation_tree() {
    // result = 2.0 * ones
    let parents = vec![vec![1], vec![]];
    let names = labels(&["ScalMul(scalar=2)", "Constant"]);

    let graph = computation_graph_string(&names, &parents, 0);

    assert_eq!(graph, "ScalMul(scalar=2)\n└──Constant\n");
}

#[test]
fn computation_graph_records_unary_operation_chain() {
    // sqrt, ln, neg, exp, pow(2), powf(0.5), sigmoid, relu, tanh, abs
    let names = labels(&[
        "Abs",
        "Tanh",
        "Relu",
        "Sigmoid",
        "PowF(exponent=0.5)",
        "Pow(exponent=2)",
        "Exp",
        "ScalMul(scalar=-1)",
        "Ln",
        "Sqrt",
        "Constant",
    ]);
    let mut parents: Vec<Vec<usize>> = (1..names.len()).map(|next| vec![next]).collect();
    parents.push(vec![]);

    let graph = computation_graph_string(&names, &parents, 0);

    assert_eq!(
        graph,
        "\
Abs
└──Tanh
   └──Relu
      └──Sigmoid
         └──PowF(exponent=0.5)
            └──Pow(exponent=2)
               └──Exp
                  └──ScalMul(scalar=-1)
                     └──Ln
                        └──Sqrt
                           └──Constant
"
    );
}

#[test]
fn computation_graph_records_binary_and_matrix_operations() {
    // elementwise = left .* right; added = 2.0 * elementwise + right;
    // matrix = added * (3.0 * right)
    let matrix_names = labels(&[
        "MatMul",
        "Add",
        "ScalMul(scalar=3)",
        "ScalMul(scalar=2)",
        "Constant",
        "ElemMul",
        "Constant",
    ]);
    let matrix_parents = vec![vec![1, 2], vec![3, 4], vec![4], vec![5], vec![], vec![6, 4], vec![]];
    // divided = (left + -1.0 * right) .* (left .* right)^-1
    let divided_names = labels(&[
        "ElemMul",
        "Add",
        "Pow(exponent=-1)",
        "Constant",
        "ScalMul(scalar=-1)",
        "ElemMul",
        "Constant",
    ]);
    let divided_parents = vec![vec![1, 2], vec![3, 4], vec![5], vec![], vec![6], vec![3, 6], vec![]];

    assert_eq!(
        computation_graph_string(&matrix_names, &matrix_parents, 0),
        "\
MatMul
├──Add
|  ├──ScalMul(scalar=2)
|  |  └──ElemMul
|  |     ├──Constant
|  |     └──Constant
|  └──Constant
└──ScalMul(scalar=3)
   └──Constant
"
    );
    assert_eq!(
        computation_graph_string(&divided_names, &divided_parents, 0),
        "\
ElemMul
├──Add
|  ├──Constant
|  └──ScalMul(scalar=-1)
|     └──Constant
└──Pow(exponent=-1)
   └──ElemMul
      ├──Constant
      └──Constant
"
    );
}

#[test]
fn computation_graph_records_transpose_and_reductions() {
    let reduced_names = labels(&[
        "Sum(axis=None, keep_shape=None)",
        "Max(axis=Some(0), keep_shape=Some(false))",
        "Sum(axis=Some(1), keep_shape=Some(true))",
        "Transpose(axis=[1, 0])",
        "Constant",
    ]);
    let chain = vec![vec![1], vec![2], vec![3], vec![4], vec![]];
    let mean_names = labels(&["ScalMul(scalar=0.25)", "Sum(axis=None, keep_shape=None)", "Constant"]);
    let mean_axis_names = labels(&[
        "ScalMul(scalar=0.5)",
        "Sum(axis=Some(1), keep_shape=Some(false))",
        "Constant",
    ]);
    let short_chain = vec![vec![1], vec![2], vec![]];
    let max_names = labels(&["Max(axis=None, keep_shape=None)", "Constant"]);
    let single = vec![vec![1], vec![]];

    assert_eq!(
        computation_graph_string(&reduced_names, &chain, 0),
        "\
Sum(axis=None, keep_shape=None)
└──Max(axis=Some(0), keep_shape=Some(false))
   └──Sum(axis=Some(1), keep_shape=Some(true))
      └──Transpose(axis=[1, 0])
         └──Constant
"
    );
    assert_eq!(
        computation_graph_string(&mean_names, &short_chain, 0),
        "\
ScalMul(scalar=0.25)
└──Sum(axis=None, keep_shape=None)
   └──Constant
"
    );
    assert_eq!(
        computation_graph_string(&mean_axis_names, &short_chain, 0),
        "\
ScalMul(scalar=0.5)
└──Sum(axis=Some(1), keep_shape=Some(false))
   └──Constant
"
    );
    assert_eq!(
        computation_graph_string(&max_names, &single, 0),
        "\
Max(axis=None, keep_shape=None)
└──Constant
"
    );
}

#[test]
fn computation_graph_string_of_a_lone_node_is_its_label() {
    let parents = vec![vec![]];

    assert_eq!(computation_graph_string(&labels(&["Constant"]), &parents, 0), "Constant\n");
}
